//! Loading an LTX document from text, one step at a time.
//!
//! The loader reads lines and builds the document until it meets an include
//! directive. Reading the included files is the caller's part: it hands the
//! outcome back and the loader goes on from there.

use crate::config::ltx_grammar::{
    classify, classify_line, has_wildcard, is_wildcard, Directive, LineKind,
};
use crate::config::ltx_parser::{LtxError, LtxFile, LtxView};
use crate::text::{chars_of, lines, split_lines, views};
use vstd::prelude::*;
use vstd::string::StringExecFns;

verus! {

/// What the loader has built so far.
pub struct LoadState {
    /// The document.
    pub doc: LtxView,
    /// The section that key/value lines go to, if a header was seen.
    pub current: Option<Seq<char>>,
}

/// The state after a line of the given meaning. Include directives change
/// nothing by themselves.
pub open spec fn apply_line(st: LoadState, k: LineKind) -> LoadState {
    match k {
        LineKind::Section(n) => LoadState { doc: st.doc.with_section(n), current: Some(n) },
        LineKind::Assign(key, v) => match st.current {
            Some(s) => LoadState { doc: st.doc.set(s, key, v), current: st.current },
            None => LoadState { doc: st.doc.set_root(key, v), current: st.current },
        },
        _ => st,
    }
}

/// The state after all of `ls`, in order.
pub open spec fn apply_lines(st: LoadState, ls: Seq<Seq<char>>) -> LoadState
    decreases ls.len(),
{
    if ls.len() == 0 {
        st
    } else {
        apply_line(apply_lines(st, ls.drop_last()), classify(ls.last()))
    }
}

/// Whether a line is an include directive, well formed or not.
pub open spec fn is_directive(line: Seq<char>) -> bool {
    classify(line) is Include || classify(line) is Malformed
}

/// Index of the first include directive of `ls` at or behind `from`, or
/// `ls.len()` if there is none.
pub open spec fn next_directive(ls: Seq<Seq<char>>, from: int) -> int
    decreases ls.len() - from,
{
    if from >= ls.len() {
        ls.len() as int
    } else if is_directive(ls[from]) {
        from
    } else {
        next_directive(ls, from + 1)
    }
}

/// The document that a text without include directives describes.
pub open spec fn parsed(text: Seq<char>) -> LtxView {
    apply_lines(LoadState { doc: LtxView::empty(), current: None }, lines(text)).doc
}

/// Whether no line of the text is an include directive.
pub open spec fn self_contained(text: Seq<char>) -> bool {
    forall|i: int| 0 <= i < lines(text).len() ==> !is_directive(#[trigger] lines(text)[i])
}

/// The documents merged one after the other into an empty one.
pub open spec fn merge_all(docs: Seq<LtxView>) -> LtxView
    decreases docs.len(),
{
    if docs.len() == 0 {
        LtxView::empty()
    } else {
        merge_all(docs.drop_last()).merge(docs.last())
    }
}

/// The views of a list of documents.
pub open spec fn doc_views(docs: Seq<LtxFile>) -> Seq<LtxView> {
    docs.map_values(|d: LtxFile| d@)
}

/// The text of the error for an include directive without a quoted argument.
pub open spec fn invalid_include_message(line: Seq<char>) -> Seq<char> {
    "Invalid #include directive: "@ + line
}

/// The text of the error for a literal include whose file does not exist.
pub open spec fn missing_include_message(path: Seq<char>) -> Seq<char> {
    "Included file not found: "@ + path
}

/// The text of the error for a pattern that the glob engine refuses.
pub open spec fn bad_pattern_message(pattern: Seq<char>, detail: Seq<char>) -> Seq<char> {
    "Invalid glob pattern '"@ + pattern + "': "@ + detail
}

/// What the caller has to do next.
pub enum LoadStep {
    /// Every line is read: the document is complete.
    Done,
    /// An include directive was met. The caller resolves `pattern` against
    /// the directory of the file being loaded, by glob expansion if
    /// `wildcard` is set and as a literal file name otherwise, and reports
    /// with `LtxLoader::resolve`.
    Include { pattern: String, wildcard: bool },
    /// The load failed.
    Failed(LtxError),
}

/// How resolving an include directive ended.
pub enum Included {
    /// The literal file does not exist; holds its path as shown to the user.
    Missing(String),
    /// The glob engine refused the pattern; holds the engine's message.
    BadPattern(String),
    /// Loading one of the files failed.
    Failed(LtxError),
    /// The documents of the files found, in the order in which they were
    /// found. A wildcard may find none.
    Documents(Vec<LtxFile>),
}

/// A load in progress.
pub struct LtxLoader {
    file: LtxFile,
    current: Option<String>,
    lines: Vec<Vec<char>>,
    next: usize,
}

impl LtxLoader {
    /// The document and current section built so far.
    pub closed spec fn state(&self) -> LoadState {
        LoadState {
            doc: self.file@,
            current: match self.current {
                Some(s) => Some(s@),
                None => None,
            },
        }
    }

    /// The lines of the text being loaded.
    pub closed spec fn lines(&self) -> Seq<Seq<char>> {
        views(self.lines@)
    }

    /// The number of lines already read.
    pub closed spec fn position(&self) -> int {
        if self.next <= self.lines.len() {
            self.next as int
        } else {
            self.lines.len() as int
        }
    }

    /// A loader at the start of `content`.
    pub fn new(content: &str) -> (r: Self)
        ensures
            r.lines() == lines(content@),
            r.position() == 0,
            r.state() == (LoadState { doc: LtxView::empty(), current: None }),
    {
        let chars = chars_of(content);
        LtxLoader { file: LtxFile::new(), current: None, lines: split_lines(&chars), next: 0 }
    }

    /// Reads on to the next include directive or to the end. Lines read are
    /// applied to the document. At a malformed directive the loader stays
    /// where it is and reports the failure.
    pub fn step(&mut self) -> (r: LoadStep)
        ensures
            final(self).lines() == old(self).lines(),
            ({
                let ls = old(self).lines();
                let stop = next_directive(ls, old(self).position());
                &&& final(self).state() == apply_lines(
                    old(self).state(),
                    ls.subrange(old(self).position(), stop),
                )
                &&& match r {
                    LoadStep::Done => stop == ls.len() && final(self).position() == stop,
                    LoadStep::Include { pattern, wildcard } => {
                        &&& stop < ls.len()
                        &&& classify(ls[stop]) == LineKind::Include(pattern@)
                        &&& wildcard == is_wildcard(pattern@)
                        &&& final(self).position() == stop + 1
                    },
                    LoadStep::Failed(e) => {
                        &&& stop < ls.len()
                        &&& classify(ls[stop]) matches LineKind::Malformed(t)
                        &&& e matches LtxError::Parse(m)
                        &&& m@ == invalid_include_message(t)
                        &&& final(self).position() == stop
                    },
                }
            }),
            final(self).state().doc.well_formed(),
    {
        let ghost ls = self.lines();
        let ghost start = self.position();
        let ghost st0 = self.state();
        if self.next > self.lines.len() {
            self.next = self.lines.len();
        }
        proof {
            use_type_invariant(&self.file);
        }
        assert(ls.subrange(start, start) == Seq::<Seq<char>>::empty());
        while self.next < self.lines.len()
            invariant
                self.lines() == ls,
                ls == views(self.lines@),
                ls == old(self).lines(),
                start == old(self).position(),
                st0 == old(self).state(),
                0 <= start <= self.next <= self.lines.len(),
                ls.len() == self.lines@.len(),
                next_directive(ls, start) == next_directive(ls, self.next as int),
                self.state() == apply_lines(st0, ls.subrange(start, self.next as int)),
                self.state().doc.well_formed(),
            decreases self.lines.len() - self.next,
        {
            let ghost i = self.next as int;
            let d = classify_line(&self.lines[self.next]);
            assert(ls[i] == self.lines@[i]@);
            proof {
                assert(ls.subrange(start, i + 1).drop_last() == ls.subrange(start, i));
                assert(ls.subrange(start, i + 1).last() == ls[i]);
            }
            match d {
                Directive::Skip => {},
                Directive::Include(pattern) => {
                    let wildcard = has_wildcard(&chars_of(pattern.as_str()));
                    self.next = self.next + 1;
                    return LoadStep::Include { pattern, wildcard };
                },
                Directive::Malformed(t) => {
                    let mut m = "Invalid #include directive: ".to_owned();
                    m.append(t.as_str());
                    return LoadStep::Failed(LtxError::Parse(m));
                },
                Directive::Section(name) => {
                    self.file.add_section(name.as_str());
                    self.current = Some(name);
                },
                Directive::Assign(key, value) => {
                    match &self.current {
                        Some(s) => {
                            self.file.put_in(s.as_str(), key, value);
                        },
                        None => {
                            self.file.set_root(key, value);
                        },
                    }
                },
            }
            self.next = self.next + 1;
        }
        LoadStep::Done
    }

    /// Takes the outcome of resolving the include directive that `step`
    /// reported for `pattern`. Documents are merged one after the other into
    /// an empty document, which is then merged into the document being
    /// built; every other outcome fails the load and changes nothing.
    pub fn resolve(&mut self, pattern: &str, outcome: Included) -> (r: Result<(), LtxError>)
        ensures
            final(self).lines() == old(self).lines(),
            final(self).position() == old(self).position(),
            final(self).state().current == old(self).state().current,
            match outcome {
                Included::Missing(path) => {
                    &&& r matches Err(LtxError::Io(m))
                    &&& m@ == missing_include_message(path@)
                    &&& final(self).state() == old(self).state()
                },
                Included::BadPattern(detail) => {
                    &&& r matches Err(LtxError::Parse(m))
                    &&& m@ == bad_pattern_message(pattern@, detail@)
                    &&& final(self).state() == old(self).state()
                },
                Included::Failed(e) => {
                    &&& r == Err::<(), LtxError>(e)
                    &&& final(self).state() == old(self).state()
                },
                Included::Documents(docs) => {
                    &&& r is Ok
                    &&& final(self).state().doc == old(self).state().doc.merge(
                        merge_all(doc_views(docs@)),
                    )
                },
            },
            final(self).state().doc.well_formed(),
    {
        proof {
            use_type_invariant(&self.file);
        }
        match outcome {
            Included::Missing(path) => {
                let mut m = "Included file not found: ".to_owned();
                m.append(path.as_str());
                Err(LtxError::Io(m))
            },
            Included::BadPattern(detail) => {
                let mut m = "Invalid glob pattern '".to_owned();
                m.append(pattern);
                m.append("': ");
                m.append(detail.as_str());
                Err(LtxError::Parse(m))
            },
            Included::Failed(e) => Err(e),
            Included::Documents(docs) => {
                let merged = merge_documents(&docs);
                self.file.merge(merged);
                Ok(())
            },
        }
    }

    /// The document built. Complete once `step` has returned `Done`.
    pub fn finish(self) -> (r: LtxFile)
        ensures
            r@ == self.state().doc,
            r@.well_formed(),
    {
        proof {
            use_type_invariant(&self.file);
        }
        self.file
    }
}

/// The documents merged one after the other into an empty one.
pub fn merge_documents(docs: &Vec<LtxFile>) -> (r: LtxFile)
    ensures
        r@ == merge_all(doc_views(docs@)),
        r@.well_formed(),
{
    let mut merged = LtxFile::new();
    let mut i: usize = 0;
    assert(doc_views(docs@).take(0) == Seq::<LtxView>::empty());
    while i < docs.len()
        invariant
            i <= docs.len(),
            merged@ == merge_all(doc_views(docs@).take(i as int)),
            merged@.well_formed(),
        decreases docs.len() - i,
    {
        proof {
            let v = doc_views(docs@);
            assert(v.take(i as int + 1).drop_last() == v.take(i as int));
            assert(v.take(i as int + 1).last() == docs@[i as int]@);
        }
        merged.merge_from(&docs[i]);
        i += 1;
    }
    assert(doc_views(docs@).take(docs.len() as int) == doc_views(docs@));
    merged
}

/// Behind `from`, a text without include directives has none to stop at,
/// and the other way round.
pub proof fn lemma_next_directive(ls: Seq<Seq<char>>, from: int)
    requires
        0 <= from,
    ensures
        from <= next_directive(ls, from) || ls.len() <= from,
        next_directive(ls, from) <= ls.len(),
        next_directive(ls, from) < ls.len() ==> is_directive(ls[next_directive(ls, from)]),
        next_directive(ls, from) == ls.len() <==> forall|i: int|
            from <= i < ls.len() ==> !is_directive(#[trigger] ls[i]),
    decreases ls.len() - from,
{
    if from >= ls.len() {
    } else if is_directive(ls[from]) {
    } else {
        lemma_next_directive(ls, from + 1);
        if next_directive(ls, from) == ls.len() {
            assert forall|i: int| from <= i < ls.len() implies !is_directive(
                #[trigger] ls[i],
            ) by {
                if i > from {
                }
            }
        }
    }
}

impl LtxFile {
    /// The document that `content` describes, if the text stands alone.
    /// A text with an include directive, well formed or not, needs a
    /// loader and gives `None` here.
    pub fn parse_content(content: &str) -> (r: Option<LtxFile>)
        ensures
            r is Some <==> self_contained(content@),
            r matches Some(d) ==> d@ == parsed(content@) && d@.well_formed(),
    {
        let mut loader = LtxLoader::new(content);
        proof {
            lemma_next_directive(loader.lines(), 0);
            let ls = lines(content@);
            assert(ls.subrange(0, ls.len() as int) == ls);
        }
        match loader.step() {
            LoadStep::Done => Some(loader.finish()),
            _ => None,
        }
    }
}

} // verus!
