use vstd::prelude::*;
use crate::enums::SpecialTokens;

verus! {

/// One command of a pipeline: its name, its arguments and where its output goes.
pub struct PipelineStage {
    pub command: String,
    pub args: Vec<String>,
    /// Standard output or standard error sent to a file.
    pub redirect: Option<Redirect>,
}

/// A redirection of one output stream to a file.
pub struct Redirect {
    pub token: SpecialTokens,
    /// The file's path.
    pub target: String,
}

/// A pipeline stage as plain values.
#[verifier::ext_equal]
pub struct StageView {
    pub command: Seq<char>,
    pub args: Seq<Seq<char>>,
    pub redirect: Option<(SpecialTokens, Seq<char>)>,
}

/// The characters of each string.
pub open spec fn texts(v: Seq<String>) -> Seq<Seq<char>> {
    v.map_values(|t: String| t@)
}

impl View for PipelineStage {
    type V = StageView;

    open spec fn view(&self) -> StageView {
        StageView {
            command: self.command@,
            args: texts(self.args@),
            redirect: match self.redirect {
                Some(r) => Some((r.token, r.target@)),
                None => None,
            },
        }
    }
}

/// The view of each stage.
pub open spec fn stage_views(v: Seq<PipelineStage>) -> Seq<StageView> {
    v.map_values(|s: PipelineStage| s@)
}

/// A list of command lines, oldest first.
pub struct History {
    entries: Vec<String>,
}

impl View for History {
    type V = Seq<Seq<char>>;

    closed spec fn view(&self) -> Seq<Seq<char>> {
        texts(self.entries@)
    }
}

impl History {
    /// An empty history.
    pub fn new() -> (h: Self)
        ensures
            h@ == Seq::<Seq<char>>::empty(),
    {
        let h = History { entries: Vec::new() };
        assert(h@ =~= Seq::<Seq<char>>::empty());
        h
    }

    /// Adds a line after the others.
    pub fn add_entry(&mut self, entry: String)
        ensures
            final(self)@ == old(self)@.push(entry@),
    {
        let ghost e = entry@;
        self.entries.push(entry);
        assert(texts(self.entries@) =~= old(self)@.push(e));
    }

    /// The lines, oldest first.
    pub fn get_iter(&self) -> (lines: Vec<String>)
        ensures
            texts(lines@) == self@,
    {
        let mut lines: Vec<String> = Vec::new();
        let mut i: usize = 0;
        while i < self.entries.len()
            invariant
                i <= self.entries.len(),
                lines@ == self.entries@.take(i as int),
            decreases self.entries.len() - i,
        {
            lines.push(self.entries[i].clone());
            i = i + 1;
            assert(lines@ =~= self.entries@.take(i as int));
        }
        assert(self.entries@.take(i as int) =~= self.entries@);
        lines
    }
}

} // verus!
