//! The build manifest of a multi-component corpus: its name, its components, span layers and
//! alignments, each under a name of its own.
use vstd::prelude::*;

verus! {

/// The corpus section of a manifest.
#[derive(Debug)]
pub struct CorpusConfig {
    pub name: String,
    pub decompose_feats: bool,
}

/// A component: where its files are, its language and format.
#[derive(Debug)]
pub struct ComponentConfig {
    pub path: String,
    pub language: Option<String>,
    pub format: Option<String>,
}

/// How a span layer is made: from a named source, optionally with a pattern.
#[derive(Debug)]
pub enum SpanLayerConfig {
    Simple(String),
    Detailed { source: String, pattern: Option<String> },
}

/// An alignment between two components: the layers it links and the file (or directory) of its
/// edges.
#[derive(Debug)]
pub struct AlignmentConfig {
    pub source: String,
    pub target: String,
    pub source_layer: String,
    pub target_layer: String,
    pub edges: String,
    pub directed: bool,
}

/// A build manifest. Each table is a list of (name, entry) pairs; no name occurs twice in a
/// table, as in the TOML it is read from.
#[derive(Debug)]
pub struct Manifest {
    pub corpus: CorpusConfig,
    pub components: Vec<(String, ComponentConfig)>,
    pub span_layers: Vec<(String, SpanLayerConfig)>,
    pub alignments: Vec<(String, AlignmentConfig)>,
}

/// The names of a table.
pub open spec fn table_keys<T>(t: Seq<(String, T)>) -> Seq<Seq<char>> {
    t.map_values(|e: (String, T)| e.0@)
}

impl Manifest {
    /// No name occurs twice in a table.
    pub open spec fn wf(&self) -> bool {
        &&& table_keys(self.components@).no_duplicates()
        &&& table_keys(self.span_layers@).no_duplicates()
        &&& table_keys(self.alignments@).no_duplicates()
    }

    /// Whether the manifest has at most one component.
    pub fn is_single_component(&self) -> (b: bool)
        ensures
            b == (self.components@.len() <= 1),
    {
        self.components.len() <= 1
    }

    /// The component names.
    pub fn component_names(&self) -> (r: Vec<&str>)
        ensures
            r@.map_values(|s: &str| s@) == table_keys(self.components@),
            self.wf() ==> r@.map_values(|s: &str| s@).no_duplicates(),
    {
        let mut r: Vec<&str> = Vec::new();
        let mut i: usize = 0;
        while i < self.components.len()
            invariant
                0 <= i <= self.components@.len(),
                r@.map_values(|s: &str| s@) == table_keys(self.components@).subrange(0, i as int),
            decreases self.components@.len() - i,
        {
            let ghost r0 = r@.map_values(|s: &str| s@);
            r.push(self.components[i].0.as_str());
            i = i + 1;
            proof {
                assert(r@.map_values(|s: &str| s@) =~= r0.push(self.components@[i - 1].0@));
                assert(table_keys(self.components@).subrange(0, i as int)
                    =~= table_keys(self.components@).subrange(0, i - 1).push(self.components@[i - 1].0@));
            }
        }
        proof { assert(table_keys(self.components@).subrange(0, i as int) =~= table_keys(self.components@)); }
        r
    }

    /// The alignment names.
    pub fn alignment_names(&self) -> (r: Vec<&str>)
        ensures
            r@.map_values(|s: &str| s@) == table_keys(self.alignments@),
            self.wf() ==> r@.map_values(|s: &str| s@).no_duplicates(),
    {
        let mut r: Vec<&str> = Vec::new();
        let mut i: usize = 0;
        while i < self.alignments.len()
            invariant
                0 <= i <= self.alignments@.len(),
                r@.map_values(|s: &str| s@) == table_keys(self.alignments@).subrange(0, i as int),
            decreases self.alignments@.len() - i,
        {
            let ghost r0 = r@.map_values(|s: &str| s@);
            r.push(self.alignments[i].0.as_str());
            i = i + 1;
            proof {
                assert(r@.map_values(|s: &str| s@) =~= r0.push(self.alignments@[i - 1].0@));
                assert(table_keys(self.alignments@).subrange(0, i as int)
                    =~= table_keys(self.alignments@).subrange(0, i - 1).push(self.alignments@[i - 1].0@));
            }
        }
        proof { assert(table_keys(self.alignments@).subrange(0, i as int) =~= table_keys(self.alignments@)); }
        r
    }
}

} // verus!
