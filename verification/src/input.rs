//! Input formats, told apart by file extension, and the reading of parsed sentences.
use vstd::prelude::*;
use crate::chars::{split, split_chars};
use crate::conllu::{read_all, sent_views, BuildError, ConllUReader, ParsedSentence};
use crate::text::chars_of;

verus! {

/// The annotated-text formats a corpus can be built from.
#[derive(Clone, Copy, Debug, PartialEq, Eq, Structural)]
pub enum InputFormat {
    ConllU,
    StanzaJson,
    SpacyJson,
    Vrt,
    Tsv,
}

/// The last component of a `/`-separated path: its last piece that is neither empty nor `.`;
/// none when there is no such piece or it is `..`.
pub open spec fn file_name(path: Seq<char>) -> Option<Seq<char>> {
    let named = named_pieces(split(path, '/'));
    if named.len() == 0 || named.last() == seq!['.', '.'] { None } else { Some(named.last()) }
}

/// The pieces that are neither empty nor `.`.
pub open spec fn named_pieces(ps: Seq<Seq<char>>) -> Seq<Seq<char>> {
    ps.filter(|p: Seq<char>| p.len() > 0 && p != seq!['.'])
}

/// The index of the last `.` of `s`, or `-1`.
pub open spec fn last_dot(s: Seq<char>) -> int
    decreases s.len(),
{
    if s.len() == 0 { -1 } else if s.last() == '.' { s.len() - 1 } else { last_dot(s.drop_last()) }
}

/// The extension of a path: what follows the last `.` of its file name, unless that dot is the
/// name's first character or there is none.
pub open spec fn extension(path: Seq<char>) -> Option<Seq<char>> {
    match file_name(path) {
        Some(n) => {
            let k = last_dot(n);
            if k <= 0 { None } else { Some(n.subrange(k + 1, n.len() as int)) }
        },
        None => None,
    }
}

/// The format an extension names: `conllu` and `conll` are CoNLL-U, `json` is Stanza JSON,
/// `vrt` and `tsv` are themselves.
pub open spec fn format_of_extension(ext: Seq<char>) -> Option<InputFormat> {
    if ext == "conllu"@ || ext == "conll"@ {
        Some(InputFormat::ConllU)
    } else if ext == "json"@ {
        Some(InputFormat::StanzaJson)
    } else if ext == "vrt"@ {
        Some(InputFormat::Vrt)
    } else if ext == "tsv"@ {
        Some(InputFormat::Tsv)
    } else {
        None
    }
}

/// Whether two character sequences are equal.
fn chars_equal(a: &[char], b: &[char]) -> (r: bool)
    ensures
        r == (a@ == b@),
{
    crate::chars::chars_eq(a, b)
}

/// The file name of a `/`-separated path, as `file_name` says.
pub fn file_name_chars(path: &str) -> (r: Option<Vec<char>>)
    ensures
        match file_name(path@) {
            Some(n) => r matches Some(v) && v@ == n,
            None => r is None,
        },
{
    let chars = chars_of(path);
    let pieces = split_chars(chars.as_slice(), '/');
    let ghost ps = crate::chars::views(pieces@);
    let mut found: Option<usize> = None;
    let mut i: usize = 0;
    proof {
        reveal(Seq::filter);
        assert(named_pieces(ps.subrange(0, 0)) =~= Seq::<Seq<char>>::empty());
    }
    while i < pieces.len()
        invariant
            0 <= i <= pieces@.len(),
            ps == crate::chars::views(pieces@),
            ps == split(path@, '/'),
            match found {
                Some(j) => j < i && named_pieces(ps.subrange(0, i as int)).len() > 0
                    && named_pieces(ps.subrange(0, i as int)).last() == ps[j as int],
                None => named_pieces(ps.subrange(0, i as int)).len() == 0,
            },
        decreases pieces@.len() - i,
    {
        let p = &pieces[i];
        proof {
            reveal(Seq::filter);
            assert(ps.subrange(0, i + 1).drop_last() =~= ps.subrange(0, i as int));
            assert(ps[i as int] == p@);
        }
        let dot = p.len() == 1 && p[0] == '.';
        proof {
            if p@ == seq!['.'] { assert(dot); }
            if dot { assert(p@ =~= seq!['.']); }
        }
        if p.len() > 0 && !dot {
            found = Some(i);
        }
        i = i + 1;
    }
    proof { assert(ps.subrange(0, i as int) =~= ps); }
    let j = match found {
        Some(j) => j,
        None => return None,
    };
    let name = &pieces[j];
    let is_parent = name.len() == 2 && name[0] == '.' && name[1] == '.';
    proof {
        if name@ == seq!['.', '.'] { assert(is_parent); }
        if is_parent { assert(name@ =~= seq!['.', '.']); }
    }
    if is_parent {
        return None;
    }
    Some(crate::chars::slice_chars(name.as_slice(), 0, name.len()))
}

/// The index of the last `.` of `name`, as `last_dot` says.
pub fn last_dot_index(name: &[char]) -> (r: Option<usize>)
    ensures
        match r {
            Some(d) => d < name@.len() && last_dot(name@) == d,
            None => last_dot(name@) == -1,
        },
{
    let mut k: usize = name.len();
    proof { assert(name@.subrange(0, k as int) =~= name@); }
    while k > 0
        invariant
            0 <= k <= name@.len(),
            last_dot(name@.subrange(0, k as int)) == last_dot(name@),
        decreases k,
    {
        proof {
            let t = name@.subrange(0, k as int);
            assert(t.drop_last() =~= name@.subrange(0, k - 1));
            assert(t.last() == name@[k - 1]);
        }
        if name[k - 1] == '.' {
            return Some(k - 1);
        }
        k = k - 1;
    }
    proof { assert(name@.subrange(0, 0) =~= Seq::<char>::empty()); }
    None
}

impl InputFormat {
    /// The format that a file's extension names.
    pub fn from_path(path: &str) -> (r: Option<InputFormat>)
        ensures
            r == match extension(path@) {
                Some(e) => format_of_extension(e),
                None => None,
            },
    {
        let name = match file_name_chars(path) {
            Some(n) => n,
            None => return None,
        };
        let d = match last_dot_index(name.as_slice()) {
            Some(d) => d,
            None => return None,
        };
        if d == 0 {
            return None;
        }
        let ext = crate::chars::slice_chars(name.as_slice(), d + 1, name.len());
        let conllu: Vec<char> = chars_of("conllu");
        let conll: Vec<char> = chars_of("conll");
        let json: Vec<char> = chars_of("json");
        let vrt: Vec<char> = chars_of("vrt");
        let tsv: Vec<char> = chars_of("tsv");
        if chars_equal(ext.as_slice(), conllu.as_slice()) || chars_equal(ext.as_slice(), conll.as_slice()) {
            Some(InputFormat::ConllU)
        } else if chars_equal(ext.as_slice(), json.as_slice()) {
            Some(InputFormat::StanzaJson)
        } else if chars_equal(ext.as_slice(), vrt.as_slice()) {
            Some(InputFormat::Vrt)
        } else if chars_equal(ext.as_slice(), tsv.as_slice()) {
            Some(InputFormat::Tsv)
        } else {
            None
        }
    }
}

/// A source of parsed sentences.
pub trait CorpusReader {
    /// The reader can read.
    spec fn ready(&self) -> bool;

    /// All the sentences the source holds.
    fn read_sentences(&mut self) -> Result<Vec<ParsedSentence>, BuildError>
        requires
            old(self).ready();
}

impl CorpusReader for ConllUReader {
    open spec fn ready(&self) -> bool {
        self.wf()
    }

    /// Every pending sentence, read leniently as `ConllUReader::read_sentences` reads.
    fn read_sentences(&mut self) -> (r: Result<Vec<ParsedSentence>, BuildError>)
        ensures
            final(self).wf(),
            final(self).source() == old(self).source(),
            ({
                let st = read_all(old(self).pending(), false, old(self).scan_start());
                &&& r matches Ok(v)
                &&& sent_views(v@) == st.sents
                &&& final(self).position() == st.pos
                &&& final(self).counts() == (st.parsed, st.skipped, st.tokens)
                &&& final(self).pending() == Seq::<Seq<char>>::empty()
            }),
    {
        ConllUReader::read_sentences(self)
    }
}

} // verus!
