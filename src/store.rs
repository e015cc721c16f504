use crate::draft::Draft;
use vstd::prelude::*;

verus! {

/// The solved drafts, in the order they were added; a draft's id is its
/// position.
pub struct DraftStore {
    pub drafts: Vec<Draft>,
}

impl DraftStore {
    /// A store with no drafts.
    pub fn new() -> (s: DraftStore)
        ensures
            s.drafts@.len() == 0,
    {
        DraftStore { drafts: Vec::new() }
    }

    /// Number of drafts held.
    pub fn len(&self) -> (r: usize)
        ensures
            r == self.drafts@.len(),
    {
        self.drafts.len()
    }

    /// Appends a draft and returns its id.
    pub fn insert(&mut self, draft: Draft) -> (id: usize)
        requires
            old(self).drafts@.len() < usize::MAX,
        ensures
            final(self).drafts@ == old(self).drafts@.push(draft),
            id == old(self).drafts@.len(),
    {
        let id = self.drafts.len();
        self.drafts.push(draft);
        id
    }

    /// The draft with the given id, if there is one.
    pub fn get(&self, id: usize) -> (r: Option<&Draft>)
        ensures
            id < self.drafts@.len() ==> r == Some(&self.drafts@[id as int]),
            id >= self.drafts@.len() ==> r is None,
    {
        if id < self.drafts.len() {
            Some(&self.drafts[id])
        } else {
            None
        }
    }

    /// The recipient of the participant called `name` in the draft with the
    /// given id; `None` if either is unknown or the participant holds no
    /// ticket.
    pub fn recipient(&self, id: usize, name: &String) -> (r: Option<String>)
        ensures
            id >= self.drafts@.len() ==> r is None,
            id < self.drafts@.len() ==> forall|i: int|
                0 <= i < self.drafts@[id as int].members@.len()
                    && (#[trigger] self.drafts@[id as int].members@[i]).name@ == name@ && (self.drafts@[id as int].wf()
                    || forall|k: int| 0 <= k < i ==> self.drafts@[id as int].members@[k].name@ != name@) ==> {
                    &&& (r is Some <==> self.drafts@[id as int].members@[i].ticket is Some)
                    &&& r matches Some(t) ==> t@ == self.drafts@[id as int].members@[i].ticket->0@
                },
            id < self.drafts@.len() && (forall|i: int|
                0 <= i < self.drafts@[id as int].members@.len()
                    ==> (#[trigger] self.drafts@[id as int].members@[i]).name@ != name@) ==> r is None,
    {
        match self.get(id) {
            Some(d) => d.lookup_recipient(name),
            None => None,
        }
    }
}

} // verus!
