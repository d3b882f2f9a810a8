use vstd::prelude::*;

verus! {

/// What an edit did, in terms of document bytes.
pub enum EditModel {
    Insert { pos: usize, text: Seq<u8> },
    Delete { pos: usize, text: Seq<u8> },
}

/// One recorded edit: bytes put in at `pos`, or bytes taken out from `pos`.
#[derive(Debug)]
pub enum EditAction {
    Insert { pos: usize, text: Vec<u8> },
    Delete { pos: usize, text: Vec<u8> },
}

impl View for EditAction {
    type V = EditModel;

    open spec fn view(&self) -> EditModel {
        match self {
            EditAction::Insert { pos, text } => EditModel::Insert { pos: *pos, text: text@ },
            EditAction::Delete { pos, text } => EditModel::Delete { pos: *pos, text: text@ },
        }
    }
}

impl Clone for EditAction {
    fn clone(&self) -> (r: Self)
        ensures
            r@ == self@,
    {
        match self {
            EditAction::Insert { pos, text } => {
                let t = text.clone();
                assert(t@ =~= text@);
                EditAction::Insert { pos: *pos, text: t }
            },
            EditAction::Delete { pos, text } => {
                let t = text.clone();
                assert(t@ =~= text@);
                EditAction::Delete { pos: *pos, text: t }
            },
        }
    }
}

/// The undo history after `e` is recorded on `list` with room for `limit`
/// edits: the oldest edit is dropped when the list would grow past it.
pub open spec fn history_after_push(list: Seq<EditModel>, e: EditModel, limit: usize) -> Seq<EditModel> {
    if list.len() + 1 > limit {
        list.push(e).drop_first()
    } else {
        list.push(e)
    }
}

/// With room for at least one edit, the edit just recorded is the latest
/// in the history.
pub proof fn lemma_push_is_latest(list: Seq<EditModel>, e: EditModel, limit: usize)
    requires
        limit > 0,
    ensures
        history_after_push(list, e, limit).len() > 0,
        history_after_push(list, e, limit).last() == e,
{
}

/// The undo history after the edits `edits` are recorded one after another.
pub open spec fn history_after_pushes(list: Seq<EditModel>, edits: Seq<EditModel>, limit: usize) -> Seq<EditModel>
    decreases edits.len(),
{
    if edits.len() == 0 {
        list
    } else {
        history_after_pushes(history_after_push(list, edits[0], limit), edits.drop_first(), limit)
    }
}

/// Recording two runs of edits is recording them one after the other.
pub proof fn lemma_pushes_concat(list: Seq<EditModel>, a: Seq<EditModel>, b: Seq<EditModel>, limit: usize)
    ensures
        history_after_pushes(list, a + b, limit) == history_after_pushes(history_after_pushes(list, a, limit), b, limit),
    decreases a.len(),
{
    if a.len() == 0 {
        assert(a + b =~= b);
    } else {
        assert((a + b).drop_first() =~= a.drop_first() + b);
        assert((a + b)[0] == a[0]);
        lemma_pushes_concat(history_after_push(list, a[0], limit), a.drop_first(), b, limit);
    }
}

/// Undoing and then redoing an edit leaves both histories as they were.
pub proof fn lemma_undo_then_redo_restores_lists(undo: Seq<EditModel>, redo: Seq<EditModel>)
    requires
        undo.len() > 0,
    ensures
        undo.drop_last().push(redo.push(undo.last()).last()) == undo,
        redo.push(undo.last()).drop_last() == redo,
{
    assert(undo.drop_last().push(undo.last()) =~= undo);
    assert(redo.push(undo.last()).drop_last() =~= redo);
}

/// The views of a list of actions.
pub open spec fn views_of(actions: Seq<EditAction>) -> Seq<EditModel> {
    actions.map_values(|a: EditAction| a@)
}

/// Undo and redo histories; the undo history keeps at most `limit` edits,
/// dropping the oldest.
#[derive(Debug)]
pub struct UndoStack {
    undo: Vec<EditAction>,
    redo: Vec<EditAction>,
    limit: usize,
}

impl UndoStack {
    /// Edits that can be undone, oldest first.
    pub closed spec fn undo_list(&self) -> Seq<EditModel> {
        views_of(self.undo@)
    }

    /// Edits that can be redone, the next one last.
    pub closed spec fn redo_list(&self) -> Seq<EditModel> {
        views_of(self.redo@)
    }

    /// How many edits the undo history keeps.
    pub closed spec fn capacity(&self) -> usize {
        self.limit
    }

    pub fn new(limit: usize) -> (r: Self)
        ensures
            r.undo_list() == Seq::<EditModel>::empty(),
            r.redo_list() == Seq::<EditModel>::empty(),
            r.capacity() == limit,
    {
        let r = Self { undo: Vec::new(), redo: Vec::new(), limit };
        assert(r.undo_list() =~= Seq::<EditModel>::empty());
        assert(r.redo_list() =~= Seq::<EditModel>::empty());
        r
    }

    /// Records a new edit; the redo history is dropped.
    pub fn push(&mut self, action: EditAction)
        ensures
            final(self).undo_list() == history_after_push(old(self).undo_list(), action@, old(self).capacity()),
            final(self).redo_list() == Seq::<EditModel>::empty(),
            final(self).capacity() == old(self).capacity(),
    {
        let ghost a = action@;
        self.undo.push(action);
        assert(views_of(self.undo@) =~= views_of(old(self).undo@).push(a));
        if self.undo.len() > self.limit {
            self.undo.remove(0);
            assert(views_of(self.undo@) =~= views_of(old(self).undo@).push(a).drop_first());
        }
        self.redo.clear();
        assert(views_of(self.redo@) =~= Seq::<EditModel>::empty());
    }

    pub fn can_undo(&self) -> (r: bool)
        ensures
            r == (self.undo_list().len() > 0),
    {
        self.undo.len() != 0
    }

    pub fn can_redo(&self) -> (r: bool)
        ensures
            r == (self.redo_list().len() > 0),
    {
        self.redo.len() != 0
    }

    /// Takes the latest edit off the undo history and keeps it for redo.
    pub fn pop_undo(&mut self) -> (r: Option<EditAction>)
        ensures
            final(self).capacity() == old(self).capacity(),
            old(self).undo_list().len() == 0 ==> {
                &&& r is None
                &&& *final(self) == *old(self)
            },
            old(self).undo_list().len() > 0 ==> {
                &&& r matches Some(a) && a@ == old(self).undo_list().last()
                &&& final(self).undo_list() == old(self).undo_list().drop_last()
                &&& final(self).redo_list() == old(self).redo_list().push(old(self).undo_list().last())
            },
    {
        if self.undo.len() == 0 {
            return None;
        }
        match self.undo.pop() {
            None => None,
            Some(action) => {
                let copy = action.clone();
                self.redo.push(copy);
                assert(views_of(self.undo@) =~= views_of(old(self).undo@).drop_last());
                assert(views_of(self.redo@) =~= views_of(old(self).redo@).push(action@));
                Some(action)
            },
        }
    }

    /// Takes the latest undone edit off the redo history and puts it back
    /// on the undo history.
    pub fn pop_redo(&mut self) -> (r: Option<EditAction>)
        ensures
            final(self).capacity() == old(self).capacity(),
            old(self).redo_list().len() == 0 ==> {
                &&& r is None
                &&& *final(self) == *old(self)
            },
            old(self).redo_list().len() > 0 ==> {
                &&& r matches Some(a) && a@ == old(self).redo_list().last()
                &&& final(self).redo_list() == old(self).redo_list().drop_last()
                &&& final(self).undo_list() == old(self).undo_list().push(old(self).redo_list().last())
            },
    {
        if self.redo.len() == 0 {
            return None;
        }
        match self.redo.pop() {
            None => None,
            Some(action) => {
                let copy = action.clone();
                self.undo.push(copy);
                assert(views_of(self.redo@) =~= views_of(old(self).redo@).drop_last());
                assert(views_of(self.undo@) =~= views_of(old(self).undo@).push(action@));
                Some(action)
            },
        }
    }

    pub fn clear(&mut self)
        ensures
            final(self).undo_list() == Seq::<EditModel>::empty(),
            final(self).redo_list() == Seq::<EditModel>::empty(),
            final(self).capacity() == old(self).capacity(),
    {
        self.undo.clear();
        self.redo.clear();
        assert(views_of(self.undo@) =~= Seq::<EditModel>::empty());
        assert(views_of(self.redo@) =~= Seq::<EditModel>::empty());
    }
}

} // verus!
