use vstd::prelude::*;
use vstd::string::*;

verus! {

/// How many recent files the settings keep.
pub const MAX_RECENT: usize = 10;

/// The editor's saved preferences.
#[derive(Debug, Clone)]
pub struct AppSettings {
    pub recent: Vec<String>,
    pub dark_theme: bool,
    pub word_wrap: bool,
    pub font_face: String,
    pub font_size: i32,
}

/// The texts of a list of strings.
pub open spec fn texts(v: Seq<String>) -> Seq<Seq<char>> {
    v.map_values(|s: String| s@)
}

/// `list` without the entries equal to `entry`, in order.
pub open spec fn without_entry(list: Seq<Seq<char>>, entry: Seq<char>) -> Seq<Seq<char>>
    decreases list.len(),
{
    if list.len() == 0 {
        Seq::empty()
    } else {
        let rest = without_entry(list.drop_last(), entry);
        if list.last() == entry {
            rest
        } else {
            rest.push(list.last())
        }
    }
}

/// The recent-files list after `entry` is opened: `entry` first, then the
/// other entries in order, at most `MAX_RECENT` in all.
pub open spec fn recent_after(list: Seq<Seq<char>>, entry: Seq<char>) -> Seq<Seq<char>> {
    let all = seq![entry] + without_entry(list, entry);
    if all.len() > MAX_RECENT {
        all.take(MAX_RECENT as int)
    } else {
        all
    }
}

/// No entry occurs twice in `list`.
pub open spec fn distinct(list: Seq<Seq<char>>) -> bool {
    forall|i: int, j: int| 0 <= i < j < list.len() ==> list[i] != list[j]
}

proof fn lemma_without_entry(list: Seq<Seq<char>>, entry: Seq<char>)
    requires
        distinct(list),
    ensures
        distinct(without_entry(list, entry)),
        forall|i: int| 0 <= i < without_entry(list, entry).len() ==> #[trigger] without_entry(list, entry)[i] != entry,
        forall|i: int| 0 <= i < without_entry(list, entry).len() ==> list.contains(#[trigger] without_entry(list, entry)[i]),
        without_entry(list, entry).len() <= list.len(),
    decreases list.len(),
{
    if list.len() > 0 {
        let rest = list.drop_last();
        assert(distinct(rest)) by {
            assert forall|i: int, j: int| 0 <= i < j < rest.len() implies rest[i] != rest[j] by {
                assert(rest[i] == list[i] && rest[j] == list[j]);
            }
        }
        lemma_without_entry(rest, entry);
        let w = without_entry(rest, entry);
        assert forall|i: int| 0 <= i < w.len() implies list.contains(#[trigger] w[i]) by {
            let k = choose|k: int| 0 <= k < rest.len() && rest[k] == w[i];
            assert(list[k] == w[i]);
        }
        if list.last() != entry {
            assert forall|i: int| 0 <= i < w.len() implies #[trigger] w[i] != list.last() by {
                let k = choose|k: int| 0 <= k < list.len() && list[k] == w[i];
                if k < list.len() - 1 {
                    assert(list[k] != list[list.len() - 1]);
                }
            }
            let wp = w.push(list.last());
            assert forall|i: int| 0 <= i < wp.len() implies list.contains(#[trigger] wp[i]) by {
                if i == w.len() {
                    assert(list[list.len() - 1] == wp[i]);
                } else {
                    assert(wp[i] == w[i]);
                }
            }
        }
    }
}

/// The recent-files list keeps at most `MAX_RECENT` entries, starts with
/// the file just opened, and never holds a file twice.
pub proof fn lemma_recent_after(list: Seq<Seq<char>>, entry: Seq<char>)
    requires
        distinct(list),
    ensures
        recent_after(list, entry).len() <= MAX_RECENT,
        recent_after(list, entry)[0] == entry,
        distinct(recent_after(list, entry)),
{
    lemma_without_entry(list, entry);
    let w = without_entry(list, entry);
    let all = seq![entry] + w;
    assert forall|i: int, j: int| 0 <= i < j < all.len() implies all[i] != all[j] by {
        if i == 0 {
            assert(all[j] == w[j - 1]);
        } else {
            assert(all[i] == w[i - 1] && all[j] == w[j - 1]);
        }
    }
    let r = recent_after(list, entry);
    assert forall|i: int, j: int| 0 <= i < j < r.len() implies r[i] != r[j] by {
        assert(r[i] == all[i] && r[j] == all[j]);
    }
}

impl Default for AppSettings {
    fn default() -> (r: Self)
        ensures
            r.recent@.len() == 0,
            !r.dark_theme,
            !r.word_wrap,
            r.font_face@ == "Consolas"@,
            r.font_size == 16,
    {
        AppSettings {
            recent: Vec::new(),
            dark_theme: false,
            word_wrap: false,
            font_face: String::from_str("Consolas"),
            font_size: 16,
        }
    }
}

impl AppSettings {
    /// Puts `entry` first in the recent-files list, drops its other
    /// occurrences, and keeps at most `MAX_RECENT` entries.
    pub fn push_recent(&mut self, entry: String)
        ensures
            texts(final(self).recent@) == recent_after(texts(old(self).recent@), entry@),
            final(self).dark_theme == old(self).dark_theme,
            final(self).word_wrap == old(self).word_wrap,
            final(self).font_face == old(self).font_face,
            final(self).font_size == old(self).font_size,
    {
        let ghost list = texts(self.recent@);
        let mut kept: Vec<String> = Vec::new();
        let mut i: usize = 0;
        while i < self.recent.len()
            invariant
                list == texts(self.recent@),
                i <= self.recent@.len(),
                texts(kept@) == without_entry(list.take(i as int), entry@),
            decreases self.recent@.len() - i,
        {
            assert(list.take(i + 1).drop_last() =~= list.take(i as int));
            assert(list.take(i + 1).last() == self.recent@[i as int]@);
            if self.recent[i] != entry {
                let item = self.recent[i].clone();
                kept.push(item);
                assert(texts(kept@) =~= without_entry(list.take(i as int), entry@).push(self.recent@[i as int]@));
            }
            i = i + 1;
        }
        assert(list.take(list.len() as int) =~= list);
        let ghost rest = texts(kept@);
        kept.insert(0, entry);
        assert(texts(kept@) =~= seq![entry@] + rest);
        kept.truncate(MAX_RECENT);
        assert(texts(kept@) =~= recent_after(list, entry@));
        self.recent = kept;
    }

    /// Drops `entry` from the recent-files list (a file that no longer
    /// exists).
    pub fn remove_recent(&mut self, entry: &String)
        ensures
            texts(final(self).recent@) == without_entry(texts(old(self).recent@), entry@),
            final(self).dark_theme == old(self).dark_theme,
            final(self).word_wrap == old(self).word_wrap,
            final(self).font_face == old(self).font_face,
            final(self).font_size == old(self).font_size,
    {
        let ghost list = texts(self.recent@);
        let mut kept: Vec<String> = Vec::new();
        let mut i: usize = 0;
        while i < self.recent.len()
            invariant
                list == texts(self.recent@),
                i <= self.recent@.len(),
                texts(kept@) == without_entry(list.take(i as int), entry@),
            decreases self.recent@.len() - i,
        {
            assert(list.take(i + 1).drop_last() =~= list.take(i as int));
            assert(list.take(i + 1).last() == self.recent@[i as int]@);
            if !self.recent[i].eq(entry) {
                let item = self.recent[i].clone();
                kept.push(item);
                assert(texts(kept@) =~= without_entry(list.take(i as int), entry@).push(self.recent@[i as int]@));
            }
            i = i + 1;
        }
        assert(list.take(list.len() as int) =~= list);
        self.recent = kept;
    }

    /// Records the path written `path` as the most recently opened file, as
    /// `push_recent` does.
    pub fn add_recent(&mut self, path: &str)
        ensures
            texts(final(self).recent@) == recent_after(texts(old(self).recent@), path@),
            final(self).dark_theme == old(self).dark_theme,
            final(self).word_wrap == old(self).word_wrap,
            final(self).font_face == old(self).font_face,
            final(self).font_size == old(self).font_size,
    {
        self.push_recent(String::from_str(path));
    }
}

} // verus!
