//! The CoNLL-U reader: sentences are blocks of non-blank lines; each line is a comment, a
//! token, a multi-word token range or an empty node, with ten tab-separated fields.
use vstd::prelude::*;
use crate::chars::{
    all_digits, chars_eq, contains_char, is_ws, parse_i64, parse_unsigned, signed_text, slice_chars, split,
    split_chars, starts_with_chars, trim, trim_chars, unsigned_text, views, lemma_split_nonempty,
};
use crate::span::Span;
use crate::text::{string_from_chars, u64_to_decimal, concat, decimal_digits};

verus! {

/// One token of a sentence.
#[derive(Debug)]
pub struct ParsedToken {
    pub word: String,
    pub lemma: Option<String>,
    pub upos: Option<String>,
    pub xpos: Option<String>,
    pub feats: Option<String>,
    pub head: Option<i64>,
    pub deprel: Option<String>,
    pub deps: Option<String>,
    pub space_after_no: bool,
}

/// A multi-word token: the range of token ids it spans and its surface form.
#[derive(Debug)]
pub struct ParsedMWT {
    pub first: usize,
    pub last: usize,
    pub form: String,
    pub no_space_after: bool,
}

/// An empty node, numbered `major.minor`.
#[derive(Debug)]
pub struct ParsedEmptyNode {
    pub major: u16,
    pub minor: u16,
    pub form: String,
    pub lemma: Option<String>,
    pub upos: Option<String>,
    pub xpos: Option<String>,
    pub feats: Option<String>,
    pub deps: Option<String>,
    pub misc: Option<String>,
}

/// One sentence: its tokens, the corpus positions they take, and what else it holds.
#[derive(Debug)]
pub struct ParsedSentence {
    pub tokens: Vec<ParsedToken>,
    pub span: Span,
    pub sent_id: Option<String>,
    pub mwts: Vec<ParsedMWT>,
    pub empty_nodes: Vec<ParsedEmptyNode>,
}

pub open spec fn opt_chars(o: Option<String>) -> Option<Seq<char>> {
    match o {
        Some(s) => Some(s@),
        None => None,
    }
}

/// A token as plain values.
pub struct TokenView {
    pub word: Seq<char>,
    pub lemma: Option<Seq<char>>,
    pub upos: Option<Seq<char>>,
    pub xpos: Option<Seq<char>>,
    pub feats: Option<Seq<char>>,
    pub head: Option<i64>,
    pub deprel: Option<Seq<char>>,
    pub deps: Option<Seq<char>>,
    pub space_after_no: bool,
}

pub open spec fn token_view(t: ParsedToken) -> TokenView {
    TokenView {
        word: t.word@,
        lemma: opt_chars(t.lemma),
        upos: opt_chars(t.upos),
        xpos: opt_chars(t.xpos),
        feats: opt_chars(t.feats),
        head: t.head,
        deprel: opt_chars(t.deprel),
        deps: opt_chars(t.deps),
        space_after_no: t.space_after_no,
    }
}

/// A multi-word token as plain values.
pub struct MwtView {
    pub first: usize,
    pub last: usize,
    pub form: Seq<char>,
    pub no_space_after: bool,
}

pub open spec fn mwt_view(m: ParsedMWT) -> MwtView {
    MwtView { first: m.first, last: m.last, form: m.form@, no_space_after: m.no_space_after }
}

/// An empty node as plain values.
pub struct EmptyView {
    pub major: u16,
    pub minor: u16,
    pub form: Seq<char>,
    pub lemma: Option<Seq<char>>,
    pub upos: Option<Seq<char>>,
    pub xpos: Option<Seq<char>>,
    pub feats: Option<Seq<char>>,
    pub deps: Option<Seq<char>>,
    pub misc: Option<Seq<char>>,
}

pub open spec fn empty_view(e: ParsedEmptyNode) -> EmptyView {
    EmptyView {
        major: e.major,
        minor: e.minor,
        form: e.form@,
        lemma: opt_chars(e.lemma),
        upos: opt_chars(e.upos),
        xpos: opt_chars(e.xpos),
        feats: opt_chars(e.feats),
        deps: opt_chars(e.deps),
        misc: opt_chars(e.misc),
    }
}

/// A field's value: absent when it is `_` or empty.
pub open spec fn field_value(s: Seq<char>) -> Option<Seq<char>> {
    if s.len() == 0 || s == seq!['_'] {
        None
    } else {
        Some(s)
    }
}

/// The `MISC` field holds the item `SpaceAfter=No`.
pub open spec fn misc_no_space(misc: Seq<char>) -> bool {
    split(misc, '|').contains("SpaceAfter=No"@)
}

/// The token that a line's fields describe.
pub open spec fn token_of(f: Seq<Seq<char>>) -> TokenView {
    TokenView {
        word: f[1],
        lemma: field_value(f[2]),
        upos: field_value(f[3]),
        xpos: field_value(f[4]),
        feats: field_value(f[5]),
        head: match signed_text(f[6]) {
            Some(n) => if i64::MIN <= n <= i64::MAX { Some(n as i64) } else { None },
            None => None,
        },
        deprel: field_value(f[7]),
        deps: field_value(f[8]),
        space_after_no: misc_no_space(f[9]),
    }
}

/// The multi-word token that a line's fields describe, when its id is a range `a-b` of two
/// numbers that fit in 32 bits.
pub open spec fn mwt_of(f: Seq<Seq<char>>) -> Option<MwtView> {
    let p = split(f[0], '-');
    if p.len() != 2 {
        None
    } else {
        match (unsigned_text(p[0]), unsigned_text(p[1])) {
            (Some(a), Some(b)) => if a <= u32::MAX && b <= u32::MAX {
                Some(MwtView { first: a as usize, last: b as usize, form: f[1], no_space_after: misc_no_space(f[9]) })
            } else {
                None
            },
            _ => None,
        }
    }
}

/// The empty node that a line's fields describe, when its id is `a.b` with two numbers that
/// fit in 16 bits.
pub open spec fn empty_of(f: Seq<Seq<char>>) -> Option<EmptyView> {
    let p = split(f[0], '.');
    if p.len() != 2 {
        None
    } else {
        match (unsigned_text(p[0]), unsigned_text(p[1])) {
            (Some(a), Some(b)) => if a <= u16::MAX && b <= u16::MAX {
        Some(EmptyView {
            major: a as u16,
            minor: b as u16,
            form: f[1],
            lemma: field_value(f[2]),
            upos: field_value(f[3]),
            xpos: field_value(f[4]),
            feats: field_value(f[5]),
            deps: field_value(f[8]),
            misc: field_value(f[9]),
        })
            } else {
                None
            },
            _ => None,
        }
    }
}

/// The sentence id that a comment line gives, if it gives one.
pub open spec fn sent_id_of(line: Seq<char>) -> Option<Seq<char>> {
    let p1 = "# sent_id = "@;
    let p2 = "# sent_id="@;
    if p1.len() <= line.len() && line.subrange(0, p1.len() as int) == p1 {
        Some(trim(line.subrange(p1.len() as int, line.len() as int)))
    } else if p2.len() <= line.len() && line.subrange(0, p2.len() as int) == p2 {
        Some(trim(line.subrange(p2.len() as int, line.len() as int)))
    } else {
        None
    }
}

/// What the lines of a sentence block give, read front to back: the tokens, multi-word
/// tokens and empty nodes so far, the last sentence id, and the first line (its offset in the
/// block and its number of fields) that has fewer than ten fields.
pub struct BlockView {
    pub tokens: Seq<TokenView>,
    pub mwts: Seq<MwtView>,
    pub empties: Seq<EmptyView>,
    pub sent_id: Option<Seq<char>>,
    pub bad: Option<(nat, nat)>,
}

/// Reads one more line, at offset `off` of the block, into `st`.
pub open spec fn block_step(st: BlockView, line: Seq<char>, off: nat) -> BlockView {
    if st.bad is Some {
        st
    } else if line.len() > 0 && line[0] == '#' {
        match sent_id_of(line) {
            Some(id) => BlockView { sent_id: Some(id), ..st },
            None => st,
        }
    } else {
        let f = split(line, '\t');
        if f.len() < 10 {
            BlockView { bad: Some((off, f.len())), ..st }
        } else if f[0].contains('-') {
            match mwt_of(f) {
                Some(m) => BlockView { mwts: st.mwts.push(m), ..st },
                None => st,
            }
        } else if f[0].contains('.') {
            match empty_of(f) {
                Some(e) => BlockView { empties: st.empties.push(e), ..st },
                None => st,
            }
        } else {
            BlockView { tokens: st.tokens.push(token_of(f)), ..st }
        }
    }
}

/// What the lines of a block give.
pub open spec fn block_view(lines: Seq<Seq<char>>) -> BlockView
    decreases lines.len(),
{
    if lines.len() == 0 {
        BlockView { tokens: Seq::empty(), mwts: Seq::empty(), empties: Seq::empty(), sent_id: None, bad: None }
    } else {
        block_step(block_view(lines.drop_last()), lines.last(), (lines.len() - 1) as nat)
    }
}

/// A block never yields more tokens than it has lines, and a bad line lies within it.
pub proof fn lemma_block_tokens_bounded(lines: Seq<Seq<char>>)
    ensures
        block_view(lines).tokens.len() <= lines.len(),
        block_view(lines).bad matches Some((o, n)) ==> o < lines.len(),
    decreases lines.len(),
{
    if lines.len() > 0 {
        lemma_block_tokens_bounded(lines.drop_last());
    }
}

fn field_value_of(s: &[char]) -> (r: Option<String>)
    ensures
        opt_chars(r) == field_value(s@),
{
    if s.len() == 0 || (s.len() == 1 && s[0] == '_') {
        proof {
            if s@.len() == 1 {
                assert(s@ =~= seq!['_']);
            }
        }
        None
    } else {
        proof {
            if s@ == seq!['_'] {
                assert(s@[0] == '_');
            }
        }
        Some(string_from_chars(s))
    }
}

fn misc_has_no_space(misc: &[char]) -> (r: bool)
    ensures
        r == misc_no_space(misc@),
{
    let items = split_chars(misc, '|');
    let target: Vec<char> = crate::text::chars_of("SpaceAfter=No");
    let mut i: usize = 0;
    while i < items.len()
        invariant
            0 <= i <= items@.len(),
            views(items@) == split(misc@, '|'),
            target@ == "SpaceAfter=No"@,
            forall|k: int| 0 <= k < i ==> items@[k]@ != "SpaceAfter=No"@,
        decreases items@.len() - i,
    {
        if chars_eq(items[i].as_slice(), target.as_slice()) {
            proof { assert(split(misc@, '|')[i as int] == items@[i as int]@); }
            return true;
        }
        i = i + 1;
    }
    proof {
        if split(misc@, '|').contains("SpaceAfter=No"@) {
            let k = choose|k: int| 0 <= k < split(misc@, '|').len() && split(misc@, '|')[k] == "SpaceAfter=No"@;
            assert(items@[k]@ == split(misc@, '|')[k]);
        }
    }
    false
}

fn token_from(f: &Vec<Vec<char>>) -> (t: ParsedToken)
    requires
        f@.len() >= 10,
    ensures
        token_view(t) == token_of(views(f@)),
{
    let head = match parse_i64(f[6].as_slice()) {
        Some(n) => Some(n),
        None => None,
    };
    proof {
        let v = views(f@);
        assert(v[6] == f@[6]@);
    }
    ParsedToken {
        word: string_from_chars(f[1].as_slice()),
        lemma: field_value_of(f[2].as_slice()),
        upos: field_value_of(f[3].as_slice()),
        xpos: field_value_of(f[4].as_slice()),
        feats: field_value_of(f[5].as_slice()),
        head,
        deprel: field_value_of(f[7].as_slice()),
        deps: field_value_of(f[8].as_slice()),
        space_after_no: misc_has_no_space(f[9].as_slice()),
    }
}

fn mwt_from(f: &Vec<Vec<char>>) -> (m: Option<ParsedMWT>)
    requires
        f@.len() >= 10,
    ensures
        match m {
            Some(x) => mwt_of(views(f@)) == Some(mwt_view(x)),
            None => mwt_of(views(f@)) is None,
        },
{
    let ghost v = views(f@);
    proof { assert(v[0] == f@[0]@ && v[1] == f@[1]@ && v[9] == f@[9]@); }
    let p = split_chars(f[0].as_slice(), '-');
    if p.len() != 2 {
        return None;
    }
    proof { assert(views(p@)[0] == p@[0]@ && views(p@)[1] == p@[1]@); }
    let a = match parse_unsigned(p[0].as_slice(), 4294967295u64) {
        Some(a) => a,
        None => return None,
    };
    let b = match parse_unsigned(p[1].as_slice(), 4294967295u64) {
        Some(b) => b,
        None => return None,
    };
    Some(ParsedMWT {
        first: a as usize,
        last: b as usize,
        form: string_from_chars(f[1].as_slice()),
        no_space_after: misc_has_no_space(f[9].as_slice()),
    })
}

fn empty_from(f: &Vec<Vec<char>>) -> (e: Option<ParsedEmptyNode>)
    requires
        f@.len() >= 10,
    ensures
        match e {
            Some(x) => empty_of(views(f@)) == Some(empty_view(x)),
            None => empty_of(views(f@)) is None,
        },
{
    let ghost v = views(f@);
    proof {
        assert(v[0] == f@[0]@ && v[1] == f@[1]@ && v[2] == f@[2]@ && v[3] == f@[3]@ && v[4] == f@[4]@);
        assert(v[5] == f@[5]@ && v[8] == f@[8]@ && v[9] == f@[9]@);
    }
    let p = split_chars(f[0].as_slice(), '.');
    if p.len() != 2 {
        return None;
    }
    proof { assert(views(p@)[0] == p@[0]@ && views(p@)[1] == p@[1]@); }
    let a = match parse_unsigned(p[0].as_slice(), 65535u64) {
        Some(a) => a,
        None => return None,
    };
    let b = match parse_unsigned(p[1].as_slice(), 65535u64) {
        Some(b) => b,
        None => return None,
    };
    Some(ParsedEmptyNode {
        major: a as u16,
        minor: b as u16,
        form: string_from_chars(f[1].as_slice()),
        lemma: field_value_of(f[2].as_slice()),
        upos: field_value_of(f[3].as_slice()),
        xpos: field_value_of(f[4].as_slice()),
        feats: field_value_of(f[5].as_slice()),
        deps: field_value_of(f[8].as_slice()),
        misc: field_value_of(f[9].as_slice()),
    })
}

fn sent_id_from(line: &[char]) -> (r: Option<String>)
    ensures
        opt_chars(r) == sent_id_of(line@),
{
    let p1: Vec<char> = crate::text::chars_of("# sent_id = ");
    let p2: Vec<char> = crate::text::chars_of("# sent_id=");
    if starts_with_chars(line, p1.as_slice()) {
        let rest = slice_chars(line, p1.len(), line.len());
        let t = trim_chars(rest.as_slice());
        Some(string_from_chars(t.as_slice()))
    } else if starts_with_chars(line, p2.as_slice()) {
        let rest = slice_chars(line, p2.len(), line.len());
        let t = trim_chars(rest.as_slice());
        Some(string_from_chars(t.as_slice()))
    } else {
        None
    }
}

/// What the lines of a sentence block gave.
pub struct ParsedBlock {
    pub tokens: Vec<ParsedToken>,
    pub mwts: Vec<ParsedMWT>,
    pub empties: Vec<ParsedEmptyNode>,
    pub sent_id: Option<String>,
    pub bad: Option<(usize, usize)>,
}

pub open spec fn parsed_block_view(b: ParsedBlock) -> BlockView {
    BlockView {
        tokens: b.tokens@.map_values(|t: ParsedToken| token_view(t)),
        mwts: b.mwts@.map_values(|m: ParsedMWT| mwt_view(m)),
        empties: b.empties@.map_values(|e: ParsedEmptyNode| empty_view(e)),
        sent_id: opt_chars(b.sent_id),
        bad: match b.bad {
            Some((o, n)) => Some((o as nat, n as nat)),
            None => None,
        },
    }
}

/// Reads the lines of one sentence block.
pub fn parse_block(lines: &[Vec<char>]) -> (b: ParsedBlock)
    ensures
        parsed_block_view(b) == block_view(views(lines@)),
{
    let mut b = ParsedBlock { tokens: Vec::new(), mwts: Vec::new(), empties: Vec::new(), sent_id: None, bad: None };
    let mut i: usize = 0;
    proof {
        assert(views(lines@).subrange(0, 0) =~= Seq::<Seq<char>>::empty());
        assert(parsed_block_view(b).tokens =~= Seq::<TokenView>::empty());
        assert(parsed_block_view(b).mwts =~= Seq::<MwtView>::empty());
        assert(parsed_block_view(b).empties =~= Seq::<EmptyView>::empty());
        assert(parsed_block_view(b) == block_view(Seq::<Seq<char>>::empty()));
    }
    while i < lines.len()
        invariant
            0 <= i <= lines@.len(),
            parsed_block_view(b) == block_view(views(lines@).subrange(0, i as int)),
        decreases lines@.len() - i,
    {
        let ghost before = parsed_block_view(b);
        let ghost pre = views(lines@).subrange(0, i as int);
        proof {
            let t = views(lines@).subrange(0, i + 1);
            assert(t.drop_last() =~= pre);
            assert(t.last() == lines@[i as int]@);
        }
        let line = lines[i].as_slice();
        if b.bad.is_some() {
        } else if line.len() > 0 && line[0] == '#' {
            match sent_id_from(line) {
                Some(id) => {
                    b.sent_id = Some(id);
                },
                None => {},
            }
        } else {
            let f = split_chars(line, '\t');
            proof {
                assert(views(f@).len() == f@.len());
            }
            if f.len() < 10 {
                b.bad = Some((i, f.len()));
            } else {
                proof { assert(views(f@)[0] == f@[0]@); }
                if contains_char(f[0].as_slice(), '-') {
                    match mwt_from(&f) {
                        Some(m) => {
                            b.mwts.push(m);
                            proof {
                                assert(parsed_block_view(b).mwts =~= before.mwts.push(mwt_of(views(f@)).unwrap()));
                            }
                        },
                        None => {},
                    }
                } else if contains_char(f[0].as_slice(), '.') {
                    match empty_from(&f) {
                        Some(e) => {
                            b.empties.push(e);
                            proof {
                                assert(parsed_block_view(b).empties =~= before.empties.push(empty_of(views(f@)).unwrap()));
                            }
                        },
                        None => {},
                    }
                } else {
                    let t = token_from(&f);
                    b.tokens.push(t);
                    proof {
                        assert(parsed_block_view(b).tokens =~= before.tokens.push(token_of(views(f@))));
                    }
                }
            }
        }
        proof {
            assert(parsed_block_view(b) == block_step(before, lines@[i as int]@, i as nat));
        }
        i = i + 1;
    }
    proof { assert(views(lines@).subrange(0, lines@.len() as int) =~= views(lines@)); }
    b
}

/// A sentence as plain values.
pub struct SentView {
    pub tokens: Seq<TokenView>,
    pub start: nat,
    pub end: nat,
    pub sent_id: Option<Seq<char>>,
    pub mwts: Seq<MwtView>,
    pub empties: Seq<EmptyView>,
}

pub open spec fn sent_view(s: ParsedSentence) -> SentView {
    SentView {
        tokens: s.tokens@.map_values(|t: ParsedToken| token_view(t)),
        start: s.span.start as nat,
        end: s.span.end as nat,
        sent_id: opt_chars(s.sent_id),
        mwts: s.mwts@.map_values(|m: ParsedMWT| mwt_view(m)),
        empties: s.empty_nodes@.map_values(|e: ParsedEmptyNode| empty_view(e)),
    }
}

pub open spec fn sent_views(v: Seq<ParsedSentence>) -> Seq<SentView> {
    v.map_values(|s: ParsedSentence| sent_view(s))
}

/// The message of a strict read stopped at line `line` of source `source`, which has `found`
/// tab-separated fields.
pub open spec fn field_count_message(source: Seq<char>, line: nat, found: nat) -> Seq<char> {
    source + ":"@ + decimal_digits(line) + ": expected 10 fields, found "@ + decimal_digits(found)
}

/// The state of a reading pass: the sentences so far, the next corpus position, the counts,
/// the block being gathered and the number of its first line, and the first error (its line
/// number and how many fields that line had) with the number of lines read up to it.
pub struct ScanView {
    pub sents: Seq<SentView>,
    pub pos: nat,
    pub parsed: nat,
    pub skipped: nat,
    pub tokens: nat,
    pub cur: Seq<Seq<char>>,
    pub start: nat,
    pub err: Option<(nat, nat)>,
}

/// Ends the block being gathered. In strict mode a line with fewer than ten fields is an
/// error; otherwise its sentence is skipped, keeping the positions its earlier tokens took.
/// A block without tokens gives no sentence, and counts as skipped unless strict.
#[verifier::opaque]
pub open spec fn finish(st: ScanView, strict: bool) -> ScanView {
    if st.err is Some || st.cur.len() == 0 {
        ScanView { cur: Seq::empty(), ..st }
    } else {
        let b = block_view(st.cur);
        let n = b.tokens.len();
        let sent = SentView { tokens: b.tokens, start: st.pos, end: st.pos + n, sent_id: b.sent_id, mwts: b.mwts, empties: b.empties };
        match b.bad {
            Some((off, nf)) => if strict {
                ScanView { err: Some((st.start + off, nf)), cur: Seq::empty(), ..st }
            } else {
                ScanView { skipped: st.skipped + 1, pos: st.pos + n, cur: Seq::empty(), ..st }
            },
            None => if n > 0 {
                ScanView {
                    sents: st.sents.push(sent),
                    pos: st.pos + n,
                    parsed: st.parsed + 1,
                    tokens: st.tokens + n,
                    cur: Seq::empty(),
                    ..st
                }
            } else if strict {
                ScanView { cur: Seq::empty(), ..st }
            } else {
                ScanView { skipped: st.skipped + 1, cur: Seq::empty(), ..st }
            },
        }
    }
}

/// The state after reading `lines` (already trimmed) from `init`: a blank line ends a block.
pub open spec fn scan(lines: Seq<Seq<char>>, strict: bool, init: ScanView) -> ScanView
    decreases lines.len(),
{
    if lines.len() == 0 {
        init
    } else {
        scan_step(scan(lines.drop_last(), strict, init), lines.last(), init.start + lines.len(), strict)
    }
}

/// Reads one more line into `st`; after a blank line the next block starts at line `next`.
#[verifier::opaque]
pub open spec fn scan_step(st: ScanView, line: Seq<char>, next: nat, strict: bool) -> ScanView {
    if st.err is Some {
        st
    } else if line.len() == 0 {
        ScanView { start: next, ..finish(st, strict) }
    } else {
        ScanView { cur: st.cur.push(line), ..st }
    }
}

proof fn lemma_scan_unfold(lines: Seq<Seq<char>>, strict: bool, init: ScanView, k: int)
    requires
        0 <= k < lines.len(),
    ensures
        scan(lines.subrange(0, k + 1), strict, init)
            == scan_step(scan(lines.subrange(0, k), strict, init), lines[k], (init.start + k + 1) as nat, strict),
{
    let t = lines.subrange(0, k + 1);
    assert(t.drop_last() =~= lines.subrange(0, k));
}

/// The state after reading all of `lines` and reaching the end of the input.
pub open spec fn read_all(lines: Seq<Seq<char>>, strict: bool, init: ScanView) -> ScanView {
    let st = scan(lines, strict, init);
    if st.err is Some { st } else { finish(st, strict) }
}

/// The lines of `text`, split at line feeds and trimmed.
pub open spec fn text_lines(text: Seq<char>) -> Seq<Seq<char>> {
    trimmed(split(text, '\n'))
}

/// Each line trimmed.
pub open spec fn trimmed(lines: Seq<Seq<char>>) -> Seq<Seq<char>> {
    lines.map_values(|l: Seq<char>| trim(l))
}

/// Counts kept while reading.
#[derive(Debug)]
pub struct ParseStats {
    pub sentences_parsed: usize,
    pub sentences_skipped: usize,
    pub tokens_parsed: usize,
}

impl ParseStats {
    pub fn new() -> (s: ParseStats)
        ensures
            s.sentences_parsed == 0 && s.sentences_skipped == 0 && s.tokens_parsed == 0,
    {
        ParseStats { sentences_parsed: 0, sentences_skipped: 0, tokens_parsed: 0 }
    }
}

/// A failure to build a corpus.
#[derive(Debug)]
pub enum BuildError {
    /// A line could not be read; `line` is its number, counted from one.
    Parse { line: usize, message: String },
    Manifest(String),
    UnknownComponent(String),
    Alignment(String),
}

/// Reads CoNLL-U text sentence by sentence.
pub struct ConllUReader {
    lines: Vec<Vec<char>>,
    next: usize,
    current_position: u64,
    source_name: String,
    stats: ParseStats,
}

impl ConllUReader {
    /// The trimmed lines not read yet.
    pub closed spec fn pending(&self) -> Seq<Seq<char>> {
        views(self.lines@).subrange(self.next as int, self.lines@.len() as int)
    }

    /// The number of the first pending line, counted from one.
    pub closed spec fn first_line(&self) -> nat {
        (self.next + 1) as nat
    }

    /// The corpus position the next token takes.
    pub closed spec fn position(&self) -> nat {
        self.current_position as nat
    }

    /// The counts so far.
    pub closed spec fn counts(&self) -> (nat, nat, nat) {
        (self.stats.sentences_parsed as nat, self.stats.sentences_skipped as nat, self.stats.tokens_parsed as nat)
    }

    /// The name used in messages.
    pub closed spec fn source(&self) -> Seq<char> {
        self.source_name@
    }

    /// Counts and positions stay below the number of lines read.
    pub closed spec fn wf(&self) -> bool {
        &&& self.next <= self.lines@.len()
        &&& self.lines@.len() <= usize::MAX - 2
        &&& self.current_position <= self.next
        &&& self.stats.sentences_parsed <= self.next
        &&& self.stats.sentences_skipped <= self.next
        &&& self.stats.tokens_parsed <= self.next
    }

    /// The state a reading pass starts from.
    pub open spec fn scan_start(&self) -> ScanView {
        ScanView {
            sents: Seq::empty(),
            pos: self.position(),
            parsed: self.counts().0,
            skipped: self.counts().1,
            tokens: self.counts().2,
            cur: Seq::empty(),
            start: self.first_line(),
            err: None,
        }
    }

    /// A reader of `input`, named `<unknown>` in messages.
    pub fn new(input: &str) -> (r: ConllUReader)
        requires
            input@.len() <= usize::MAX - 3,
        ensures
            r.wf(),
            r.pending() == text_lines(input@),
            r.first_line() == 1,
            r.position() == 0,
            r.counts() == (0nat, 0nat, 0nat),
            r.source() == "<unknown>"@,
    {
        let chars = crate::text::chars_of(input);
        let raw = split_chars(chars.as_slice(), '\n');
        let mut lines: Vec<Vec<char>> = Vec::new();
        let mut i: usize = 0;
        while i < raw.len()
            invariant
                0 <= i <= raw@.len(),
                views(raw@) == split(input@, '\n'),
                views(lines@) == trimmed(split(input@, '\n').subrange(0, i as int)),
            decreases raw@.len() - i,
        {
            let t = trim_chars(raw[i].as_slice());
            let ghost l0 = views(lines@);
            lines.push(t);
            i = i + 1;
            proof {
                let sp = split(input@, '\n');
                assert(views(raw@)[i - 1] == raw@[i - 1]@);
                assert(views(lines@) =~= l0.push(trim(sp[i - 1])));
                assert(trimmed(sp.subrange(0, i as int)) =~= trimmed(sp.subrange(0, i - 1)).push(trim(sp[i - 1])));
            }
        }
        proof {
            crate::chars::lemma_split_len(input@, '\n');
            assert(split(input@, '\n').subrange(0, i as int) =~= split(input@, '\n'));
            assert(views(lines@).subrange(0, lines@.len() as int) =~= views(lines@));
        }
        ConllUReader {
            lines,
            next: 0,
            current_position: 0,
            source_name: crate::text::to_owned_string("<unknown>"),
            stats: ParseStats::new(),
        }
    }

    /// The same reader, named `name` in messages.
    pub fn with_source_name(self, name: String) -> (r: ConllUReader)
        ensures
            r.pending() == self.pending(),
            r.first_line() == self.first_line(),
            r.position() == self.position(),
            r.counts() == self.counts(),
            r.wf() == self.wf(),
            r.source() == name@,
    {
        ConllUReader { source_name: name, ..self }
    }

    /// The state of a pass after this reader's position and counts.
    closed spec fn at(&self, sents: Seq<SentView>, cur: Seq<Seq<char>>, start: nat) -> ScanView {
        ScanView {
            sents,
            pos: self.current_position as nat,
            parsed: self.stats.sentences_parsed as nat,
            skipped: self.stats.sentences_skipped as nat,
            tokens: self.stats.tokens_parsed as nat,
            cur,
            start,
            err: None,
        }
    }

    /// Ends a gathered block of lines whose first line has number `start_line`.
    fn finish_block(&mut self, block: &[Vec<char>], start_line: usize, strict: bool, sents: &mut Vec<ParsedSentence>)
        -> (r: Result<(), BuildError>)
        requires
            block@.len() > 0,
            old(self).current_position + block@.len() <= u64::MAX,
            old(self).stats.sentences_parsed < usize::MAX,
            old(self).stats.sentences_skipped < usize::MAX,
            old(self).stats.tokens_parsed + block@.len() <= usize::MAX,
            start_line + block@.len() <= usize::MAX,
        ensures
            ({
                let st = finish(old(self).at(sent_views(old(sents)@), views(block@), start_line as nat), strict);
                &&& r is Ok <==> st.err is None
                &&& r matches Err(e) ==> (e matches BuildError::Parse { line, message } && st.err matches Some((l, n)) && line == l
                    && message@ == field_count_message(old(self).source_name@, l, n))
                &&& r is Ok ==> final(self).at(sent_views(final(sents)@), Seq::empty(), start_line as nat) == st
            }),
            final(self).lines == old(self).lines,
            final(self).next == old(self).next,
            final(self).source_name == old(self).source_name,
            final(self).current_position <= old(self).current_position + block@.len(),
            final(self).stats.sentences_parsed <= old(self).stats.sentences_parsed + 1,
            final(self).stats.sentences_skipped <= old(self).stats.sentences_skipped + 1,
            final(self).stats.tokens_parsed <= old(self).stats.tokens_parsed + block@.len(),
    {
        proof { reveal(finish); }
        let b = parse_block(block);
        proof { lemma_block_tokens_bounded(views(block@)); }
        let n = b.tokens.len();
        let ghost bv = block_view(views(block@));
        proof { assert(bv.tokens.len() == n); }
        match b.bad {
            Some((off, nf)) => {
                if strict {
                    let line = start_line + off;
                    let m1 = concat(self.source_name.as_str(), ":");
                    let m2 = concat(m1.as_str(), u64_to_decimal(line as u64).as_str());
                    let m3 = concat(m2.as_str(), ": expected 10 fields, found ");
                    let m4 = concat(m3.as_str(), u64_to_decimal(nf as u64).as_str());
                    proof {
                        assert(m4@ =~= field_count_message(self.source_name@, line as nat, nf as nat));
                    }
                    return Err(BuildError::Parse { line, message: m4 });
                } else {
                    self.stats.sentences_skipped = self.stats.sentences_skipped + 1;
                    self.current_position = self.current_position + n as u64;
                }
            },
            None => {
                if n > 0 {
                    let start = self.current_position;
                    self.current_position = self.current_position + n as u64;
                    self.stats.sentences_parsed = self.stats.sentences_parsed + 1;
                    self.stats.tokens_parsed = self.stats.tokens_parsed + n;
                    let ghost s0 = sent_views(sents@);
                    let sent = ParsedSentence {
                        tokens: b.tokens,
                        span: Span::new(start, self.current_position),
                        sent_id: b.sent_id,
                        mwts: b.mwts,
                        empty_nodes: b.empties,
                    };
                    sents.push(sent);
                    proof {
                        assert(sent_views(sents@) =~= s0.push(SentView {
                            tokens: bv.tokens, start: start as nat, end: (start + n) as nat, sent_id: bv.sent_id, mwts: bv.mwts, empties: bv.empties,
                        }));
                    }
                } else if !strict {
                    self.stats.sentences_skipped = self.stats.sentences_skipped + 1;
                }
            },
        }
        Ok(())
    }

    /// Reads line `i` into a pass whose gathered block is `cur`, begun at line `start_line`.
    fn step_line(&mut self, i: usize, cur: &mut Vec<Vec<char>>, start_line: &mut usize, strict: bool, sents: &mut Vec<ParsedSentence>)
        -> (r: Result<(), BuildError>)
        requires
            i < old(self).lines@.len(),
            old(self).lines@.len() <= usize::MAX - 2,
            old(self).current_position + old(cur)@.len() <= i,
            old(self).stats.sentences_parsed + old(cur)@.len() <= i,
            old(self).stats.sentences_skipped + old(cur)@.len() <= i,
            old(self).stats.tokens_parsed + old(cur)@.len() <= i,
            *old(start_line) + old(cur)@.len() <= i + 1,
        ensures
            ({
                let before = old(self).at(sent_views(old(sents)@), views(old(cur)@), *old(start_line) as nat);
                let line = old(self).lines@[i as int]@;
                &&& r is Ok ==> final(self).at(sent_views(final(sents)@), views(final(cur)@), *final(start_line) as nat)
                    == scan_step(before, line, (i + 2) as nat, strict)
                &&& r matches Err(e) ==> (finish(before, strict).err matches Some((l, n))
                    && (e matches BuildError::Parse { line, message } && line == l
                        && message@ == field_count_message(old(self).source_name@, l, n)))
                &&& r is Err ==> (line.len() == 0 && finish(before, strict).err is Some)
            }),
            final(self).lines == old(self).lines,
            final(self).next == old(self).next,
            final(self).source_name == old(self).source_name,
            r is Ok ==> final(self).current_position + final(cur)@.len() <= i + 1
                && final(self).stats.sentences_parsed + final(cur)@.len() <= i + 1
                && final(self).stats.sentences_skipped + final(cur)@.len() <= i + 1
                && final(self).stats.tokens_parsed + final(cur)@.len() <= i + 1
                && *final(start_line) + final(cur)@.len() <= i + 2,
            r is Err ==> final(self).current_position <= i && final(self).stats.sentences_parsed <= i
                && final(self).stats.sentences_skipped <= i && final(self).stats.tokens_parsed <= i,
    {
        proof { reveal(scan_step); reveal(finish); }
        let ghost before = self.at(sent_views(sents@), views(cur@), *start_line as nat);
        proof { assert(views(self.lines@)[i as int] == self.lines@[i as int]@); }
        if self.lines[i].len() == 0 {
            if cur.len() > 0 {
                let res = self.finish_block(cur.as_slice(), *start_line, strict, sents);
                if res.is_err() {
                    return res;
                }
            } else {
                proof { assert(views(cur@) =~= Seq::<Seq<char>>::empty()); }
            }
            *cur = Vec::new();
            *start_line = i + 2;
            proof {
                assert(views(cur@) =~= Seq::<Seq<char>>::empty());
            }
        } else {
            let line = slice_chars(self.lines[i].as_slice(), 0, self.lines[i].len());
            let ghost c0 = views(cur@);
            proof { assert(self.lines@[i as int]@.subrange(0, self.lines@[i as int]@.len() as int) =~= self.lines@[i as int]@); }
            cur.push(line);
            proof { assert(views(cur@) =~= c0.push(self.lines@[i as int]@)); }
        }
        Ok(())
    }

    /// Reads every pending line; see `read_sentences` and `read_sentences_strict`.
    #[verifier::rlimit(80)]
    fn read_pass(&mut self, strict: bool) -> (r: Result<Vec<ParsedSentence>, BuildError>)
        requires
            old(self).wf(),
        ensures
            final(self).wf(),
            final(self).source() == old(self).source(),
            ({
                let st = read_all(old(self).pending(), strict, old(self).scan_start());
                &&& r is Ok <==> st.err is None
                &&& r matches Err(e) ==> (e matches BuildError::Parse { line, message } && st.err matches Some((l, n)) && line == l
                    && message@ == field_count_message(old(self).source(), l, n))
                &&& r matches Ok(v) ==> {
                    &&& sent_views(v@) == st.sents
                    &&& final(self).position() == st.pos
                    &&& final(self).counts() == (st.parsed, st.skipped, st.tokens)
                    &&& final(self).pending() == Seq::<Seq<char>>::empty()
                }
            }),
    {
        let ghost init = self.scan_start();
        let ghost pend = self.pending();
        let ghost first = self.next;
        let mut sents: Vec<ParsedSentence> = Vec::new();
        let mut cur: Vec<Vec<char>> = Vec::new();
        let mut start_line: usize = self.next + 1;
        let mut i: usize = self.next;
        proof {
            assert(pend.subrange(0, 0) =~= Seq::<Seq<char>>::empty());
            assert(sent_views(sents@) =~= Seq::<SentView>::empty());
            assert(views(cur@) =~= Seq::<Seq<char>>::empty());
        }
        while i < self.lines.len()
            invariant
                first <= i <= self.lines@.len(),
                self.lines@.len() <= usize::MAX - 2,
                pend == views(self.lines@).subrange(first as int, self.lines@.len() as int),
                pend == old(self).pending(),
                init == old(self).scan_start(),
                init.start == first + 1,
                init.err is None,
                self.next == first,
                self.source_name == old(self).source_name,
                self.at(sent_views(sents@), views(cur@), start_line as nat) == scan(pend.subrange(0, i - first), strict, init),
                self.current_position + cur@.len() <= i,
                self.stats.sentences_parsed + cur@.len() <= i,
                self.stats.sentences_skipped + cur@.len() <= i,
                self.stats.tokens_parsed + cur@.len() <= i,
                start_line + cur@.len() <= i + 1,
            decreases self.lines@.len() - i,
        {
            let ghost before = scan(pend.subrange(0, i - first), strict, init);
            proof {
                lemma_scan_unfold(pend, strict, init, i - first);
                assert(pend[i - first] == self.lines@[i as int]@);
            }
            let res = self.step_line(i, &mut cur, &mut start_line, strict, &mut sents);
            if res.is_err() {
                self.next = i + 1;
                let ghost after = scan(pend.subrange(0, i + 1 - first), strict, init);
                proof {
                    assert(after.err == finish(before, strict).err) by { reveal(scan_step); }
                    lemma_scan_err_stays(pend, strict, init, (i + 1 - first) as nat);
                    assert(read_all(pend, strict, init) == after);
                }
                let e = match res { Err(e) => e, Ok(_) => BuildError::Manifest(String::new()) };
                proof {
                    assert(finish(before, strict).err matches Some((l, n)) && (e matches BuildError::Parse { line, message } && line == l
                        && message@ == field_count_message(self.source_name@, l, n)));
                    assert(e matches BuildError::Parse { line, message } && read_all(pend, strict, init).err matches Some((l, n)) && line == l
                        && message@ == field_count_message(old(self).source(), l, n));
                }
                return Err(e);
            }
            i = i + 1;
        }
        proof { assert(pend.subrange(0, i - first) =~= pend); }
        if cur.len() > 0 {
            let res = self.finish_block(cur.as_slice(), start_line, strict, &mut sents);
            if res.is_err() {
                self.next = i;
                return match res { Err(e) => Err(e), Ok(_) => Err(BuildError::Manifest(String::new())) };
            }
        } else {
            proof {
                assert(views(cur@) =~= Seq::<Seq<char>>::empty());
                reveal(finish);
            }
        }
        self.next = i;
        proof {
            assert(views(self.lines@).subrange(i as int, self.lines@.len() as int) =~= Seq::<Seq<char>>::empty());
        }
        Ok(sents)
    }

    /// Reads every pending sentence. A sentence with a line of fewer than ten fields, or with
    /// no token, is skipped and counted as skipped.
    pub fn read_sentences(&mut self) -> (r: Result<Vec<ParsedSentence>, BuildError>)
        requires
            old(self).wf(),
        ensures
            final(self).wf(),
            final(self).source() == old(self).source(),
            ({
                let st = read_all(old(self).pending(), false, old(self).scan_start());
                &&& r matches Ok(v)
                &&& sent_views(v@) == st.sents
                &&& final(self).position() == st.pos
                &&& final(self).counts() == (st.parsed, st.skipped, st.tokens)
                &&& final(self).pending() == Seq::<Seq<char>>::empty()
            }),
    {
        proof { lemma_lenient_no_err(self.pending(), self.scan_start()); }
        self.read_pass(false)
    }

    /// Reads every pending sentence; a line of fewer than ten fields is an error that gives its
    /// line number. Sentences without tokens are left out.
    pub fn read_sentences_strict(&mut self) -> (r: Result<Vec<ParsedSentence>, BuildError>)
        requires
            old(self).wf(),
        ensures
            final(self).wf(),
            final(self).source() == old(self).source(),
            ({
                let st = read_all(old(self).pending(), true, old(self).scan_start());
                &&& r is Ok <==> st.err is None
                &&& r matches Err(e) ==> (e matches BuildError::Parse { line, message } && st.err matches Some((l, n)) && line == l
                    && message@ == field_count_message(old(self).source(), l, n))
                &&& r matches Ok(v) ==> {
                    &&& sent_views(v@) == st.sents
                    &&& final(self).position() == st.pos
                    &&& final(self).counts() == (st.parsed, st.skipped, st.tokens)
                    &&& final(self).pending() == Seq::<Seq<char>>::empty()
                }
            }),
    {
        self.read_pass(true)
    }

    /// The counts so far.
    pub fn stats(&self) -> (s: &ParseStats)
        ensures
            (s.sentences_parsed as nat, s.sentences_skipped as nat, s.tokens_parsed as nat) == self.counts(),
    {
        &self.stats
    }
}

/// Once a pass has met an error, further lines change nothing.
proof fn lemma_scan_err_stays(lines: Seq<Seq<char>>, strict: bool, init: ScanView, n: nat)
    requires
        n <= lines.len(),
        scan(lines.subrange(0, n as int), strict, init).err is Some,
    ensures
        read_all(lines, strict, init) == scan(lines.subrange(0, n as int), strict, init),
    decreases lines.len() - n,
{
    reveal(scan_step);
    if n < lines.len() {
        let t = lines.subrange(0, n + 1int);
        assert(t.drop_last() =~= lines.subrange(0, n as int));
        lemma_scan_err_stays(lines, strict, init, n + 1);
    } else {
        assert(lines.subrange(0, n as int) =~= lines);
    }
}

/// Reading without strictness never meets an error.
proof fn lemma_lenient_no_err(lines: Seq<Seq<char>>, init: ScanView)
    requires
        init.err is None,
    ensures
        read_all(lines, false, init).err is None,
        scan(lines, false, init).err is None,
    decreases lines.len(),
{
    reveal(scan_step);
    reveal(finish);
    if lines.len() > 0 {
        lemma_lenient_no_err(lines.drop_last(), init);
    }
}

/// The two passes are in step: same sentences, positions, counts of parsed sentences and
/// tokens, gathered block and block start (only the count of skipped blocks may differ).
pub open spec fn passes_agree(s: ScanView, l: ScanView) -> bool {
    &&& s.sents == l.sents
    &&& s.pos == l.pos
    &&& s.parsed == l.parsed
    &&& s.tokens == l.tokens
    &&& s.cur == l.cur
    &&& s.start == l.start
}

/// While the strict pass meets no error, the lenient pass over the same lines stays in step
/// with it.
proof fn lemma_scan_agree(lines: Seq<Seq<char>>, init: ScanView)
    requires
        init.err is None,
        scan(lines, true, init).err is None,
    ensures
        scan(lines, false, init).err is None,
        passes_agree(scan(lines, true, init), scan(lines, false, init)),
    decreases lines.len(),
{
    reveal(scan_step);
    reveal(finish);
    if lines.len() > 0 {
        let prev = lines.drop_last();
        if scan(prev, true, init).err is Some {
            assert(scan(lines, true, init) == scan(prev, true, init));
        }
        lemma_scan_agree(prev, init);
    }
}

/// When the strict reading of some lines succeeds, the lenient reading of the same lines gives
/// the same sentences, the same next position and the same counts of sentences and tokens: the
/// two differ only in what they do with a line of fewer than ten fields.
pub proof fn lemma_strict_success_matches_lenient(lines: Seq<Seq<char>>, init: ScanView)
    requires
        init.err is None,
        read_all(lines, true, init).err is None,
    ensures
        read_all(lines, false, init).err is None,
        read_all(lines, true, init).sents == read_all(lines, false, init).sents,
        read_all(lines, true, init).pos == read_all(lines, false, init).pos,
        read_all(lines, true, init).parsed == read_all(lines, false, init).parsed,
        read_all(lines, true, init).tokens == read_all(lines, false, init).tokens,
{
    reveal(finish);
    lemma_scan_agree(lines, init);
}

/// A line that a strict read accepts: blank, a comment, or at least ten tab-separated fields.
pub open spec fn full_line(line: Seq<char>) -> bool {
    line.len() == 0 || line[0] == '#' || split(line, '\t').len() >= 10
}

/// No line of `lines` is short.
pub open spec fn no_short_line(lines: Seq<Seq<char>>) -> bool {
    forall|i: int| 0 <= i < lines.len() ==> full_line(#[trigger] lines[i])
}

/// A block without short lines has no bad line.
proof fn lemma_full_block(lines: Seq<Seq<char>>)
    requires
        no_short_line(lines),
        forall|i: int| 0 <= i < lines.len() ==> (#[trigger] lines[i]).len() > 0,
    ensures
        block_view(lines).bad is None,
    decreases lines.len(),
{
    if lines.len() > 0 {
        let prev = lines.drop_last();
        assert forall|i: int| 0 <= i < prev.len() implies full_line(#[trigger] prev[i]) && prev[i].len() > 0 by {
            assert(prev[i] == lines[i]);
        }
        lemma_full_block(prev);
        assert(full_line(lines[lines.len() - 1]));
        assert(lines[lines.len() - 1].len() > 0);
    }
}

/// A strict pass over lines without short lines, from a start whose gathered lines have none,
/// meets no error and keeps gathering lines without short ones.
proof fn lemma_full_scan(lines: Seq<Seq<char>>, init: ScanView)
    requires
        init.err is None,
        no_short_line(init.cur),
        forall|i: int| 0 <= i < init.cur.len() ==> (#[trigger] init.cur[i]).len() > 0,
        no_short_line(lines),
    ensures
        scan(lines, true, init).err is None,
        no_short_line(scan(lines, true, init).cur),
        forall|i: int| 0 <= i < scan(lines, true, init).cur.len() ==> (#[trigger] scan(lines, true, init).cur[i]).len() > 0,
    decreases lines.len(),
{
    reveal(scan_step);
    reveal(finish);
    if lines.len() > 0 {
        let prev = lines.drop_last();
        assert forall|i: int| 0 <= i < prev.len() implies full_line(#[trigger] prev[i]) by {
            assert(prev[i] == lines[i]);
        }
        lemma_full_scan(prev, init);
        let st = scan(prev, true, init);
        let line = lines.last();
        assert(full_line(lines[lines.len() - 1]));
        if line.len() == 0 {
            lemma_full_block(st.cur);
            assert(no_short_line(Seq::<Seq<char>>::empty()));
        } else {
            assert forall|i: int| 0 <= i < st.cur.push(line).len() implies full_line(#[trigger] st.cur.push(line)[i])
                && st.cur.push(line)[i].len() > 0 by {
                if i < st.cur.len() {
                    assert(st.cur.push(line)[i] == st.cur[i]);
                }
            }
        }
    }
}

/// On lines where no line is short, the strict read succeeds, and the lenient read gives the
/// same sentences, the same next position and the same counts of sentences and tokens.
pub proof fn lemma_full_lines_read_alike(lines: Seq<Seq<char>>, init: ScanView)
    requires
        init.err is None,
        init.cur.len() == 0,
        no_short_line(lines),
    ensures
        read_all(lines, true, init).err is None,
        read_all(lines, false, init).err is None,
        read_all(lines, true, init).sents == read_all(lines, false, init).sents,
        read_all(lines, true, init).pos == read_all(lines, false, init).pos,
        read_all(lines, true, init).parsed == read_all(lines, false, init).parsed,
        read_all(lines, true, init).tokens == read_all(lines, false, init).tokens,
{
    reveal(finish);
    assert(no_short_line(init.cur));
    lemma_full_scan(lines, init);
    lemma_full_block(scan(lines, true, init).cur);
    lemma_strict_success_matches_lenient(lines, init);
}

/// For a reader whose pending lines have no short line, `read_sentences_strict` succeeds and
/// gives what `read_sentences` gives: the same sentences, next position and counts of
/// sentences and tokens (both calls' results are `read_all` of the pending lines).
pub proof fn lemma_reader_reads_alike(r: ConllUReader)
    requires
        no_short_line(r.pending()),
    ensures
        read_all(r.pending(), true, r.scan_start()).err is None,
        read_all(r.pending(), true, r.scan_start()).sents == read_all(r.pending(), false, r.scan_start()).sents,
        read_all(r.pending(), true, r.scan_start()).pos == read_all(r.pending(), false, r.scan_start()).pos,
        read_all(r.pending(), true, r.scan_start()).parsed == read_all(r.pending(), false, r.scan_start()).parsed,
        read_all(r.pending(), true, r.scan_start()).tokens == read_all(r.pending(), false, r.scan_start()).tokens,
{
    lemma_full_lines_read_alike(r.pending(), r.scan_start());
}

/// A comment line `# sent_id = X` or `# sent_id=X` names its sentence: the id is the rest of
/// the line after either prefix, trimmed. Any other line names none, and a line that is not
/// a comment never does.
pub proof fn lemma_sent_id_forms(line: Seq<char>)
    ensures
        line.len() >= 12 && line.subrange(0, 12) == seq!['#', ' ', 's', 'e', 'n', 't', '_', 'i', 'd', ' ', '=', ' ']
            ==> sent_id_of(line) == Some(trim(line.subrange(12, line.len() as int))),
        line.len() >= 10 && line.subrange(0, 10) == seq!['#', ' ', 's', 'e', 'n', 't', '_', 'i', 'd', '=']
            ==> sent_id_of(line) == Some(trim(line.subrange(10, line.len() as int))),
        sent_id_of(line) is Some ==> line.len() >= 10 && line[0] == '#' && line[1] == ' ' && line[2] == 's'
            && line[8] == 'd' && (line[9] == '=' || (line[9] == ' ' && line[10] == '=' && line[11] == ' ')),
{
    reveal_strlit("# sent_id = ");
    reveal_strlit("# sent_id=");
    let p1 = "# sent_id = "@;
    let p2 = "# sent_id="@;
    assert(p1 =~= seq!['#', ' ', 's', 'e', 'n', 't', '_', 'i', 'd', ' ', '=', ' ']);
    assert(p2 =~= seq!['#', ' ', 's', 'e', 'n', 't', '_', 'i', 'd', '=']);
    if line.len() >= 12 && line.subrange(0, 12) == p1 {
        assert(line.subrange(0, p1.len() as int) == p1);
    }
    if line.len() >= 10 && line.subrange(0, 10) == p2 {
        if line.len() >= 12 && line.subrange(0, 12) == p1 {
            assert(line[9] == line.subrange(0, 10)[9]);
            assert(line[9] == line.subrange(0, 12)[9]);
        }
    }
    if sent_id_of(line) is Some {
        if p1.len() <= line.len() && line.subrange(0, p1.len() as int) == p1 {
            assert(line[0] == line.subrange(0, 12)[0] && line[1] == line.subrange(0, 12)[1]);
            assert(line[2] == line.subrange(0, 12)[2] && line[8] == line.subrange(0, 12)[8]);
            assert(line[9] == line.subrange(0, 12)[9] && line[10] == line.subrange(0, 12)[10]);
            assert(line[11] == line.subrange(0, 12)[11]);
        } else {
            assert(line[0] == line.subrange(0, 10)[0] && line[1] == line.subrange(0, 10)[1]);
            assert(line[2] == line.subrange(0, 10)[2] && line[8] == line.subrange(0, 10)[8]);
            assert(line[9] == line.subrange(0, 10)[9]);
        }
    }
}

} // verus!
