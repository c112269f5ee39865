//! The resolved run policy as MCP projection reads it: which skills, servers
//! and tools a run may use.

use vstd::prelude::*;

use crate::text::views;

verus! {

/// How a resource selection was resolved.
#[derive(Clone, Copy, PartialEq, Eq, Structural, Debug)]
pub enum SelectionMode {
    /// Every resource is eligible.
    All,
    /// Eligibility is left to discovery; every resource is eligible.
    Auto,
    /// Exactly the listed identities are eligible.
    Selected,
    /// Nothing is eligible.
    Nothing,
    /// Deferred to a parent; nothing is eligible at this level.
    Inherit,
}

/// One resolved selection: a mode and, for `Selected`, the identities.
pub struct EffectiveResourceSelection {
    pub mode: SelectionMode,
    pub ids: Vec<String>,
}

pub struct SelectionView {
    pub mode: SelectionMode,
    pub ids: Seq<Seq<char>>,
}

impl EffectiveResourceSelection {
    pub open spec fn view(&self) -> SelectionView {
        SelectionView { mode: self.mode, ids: views(self.ids@) }
    }

    /// An equal copy.
    pub fn duplicate(&self) -> (r: EffectiveResourceSelection)
        ensures
            r.view() == self.view(),
    {
        let ids = crate::text::copy_strings(&self.ids);
        assert(views(ids@) =~= views(self.ids@));
        EffectiveResourceSelection { mode: self.mode, ids }
    }
}

/// The resolved policy of one run.
pub struct EffectiveRunPolicy {
    pub skills: EffectiveResourceSelection,
    pub mcp_servers: EffectiveResourceSelection,
    pub tools: EffectiveResourceSelection,
}

/// Whether `id` is eligible under a selection.
pub open spec fn selects(s: SelectionView, id: Seq<char>) -> bool {
    match s.mode {
        SelectionMode::All | SelectionMode::Auto => true,
        SelectionMode::Selected => s.ids.contains(id),
        SelectionMode::Nothing | SelectionMode::Inherit => false,
    }
}

/// Whether `id` is eligible under a selection.
pub fn eligible(selection: &EffectiveResourceSelection, id: &str) -> (r: bool)
    ensures
        r == selects(selection.view(), id@),
{
    match selection.mode {
        SelectionMode::All | SelectionMode::Auto => true,
        SelectionMode::Selected => {
            let mut i: usize = 0;
            while i < selection.ids.len()
                invariant
                    selection.mode == SelectionMode::Selected,
                    i <= selection.ids@.len(),
                    forall|k: int| 0 <= k < i ==> #[trigger] views(selection.ids@)[k] != id@,
                decreases selection.ids.len() - i,
            {
                if crate::text::str_eq(selection.ids[i].as_str(), id) {
                    assert(views(selection.ids@)[i as int] == id@);
                    assert(selection.view().ids.contains(id@));
                    return true;
                }
                i = i + 1;
            }
            false
        },
        SelectionMode::Nothing | SelectionMode::Inherit => false,
    }
}


/// `All` and `Auto` admit every identity, `Nothing` and `Inherit` none, and
/// `Selected` exactly the listed ones; the list matters only under `Selected`.
pub proof fn law_selection_modes(s: SelectionView, id: Seq<char>, other: Seq<Seq<char>>)
    ensures
        (s.mode == SelectionMode::All || s.mode == SelectionMode::Auto) ==> selects(s, id),
        (s.mode == SelectionMode::Nothing || s.mode == SelectionMode::Inherit) ==> !selects(s, id),
        s.mode == SelectionMode::Selected ==> (selects(s, id) <==> s.ids.contains(id)),
        s.mode != SelectionMode::Selected ==> selects(s, id) == selects(SelectionView { mode: s.mode, ids: other }, id),
{
}

} // verus!
