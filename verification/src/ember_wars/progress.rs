//! Player progress: stars per level, and which levels and chapters are open.
use vstd::prelude::*;

verus! {

/// Stars recorded for `id` in `entries`: the last entry with that id, or 0.
pub open spec fn stars_in(entries: Seq<(String, u8)>, id: Seq<char>) -> u8
    decreases entries.len(),
{
    if entries.len() == 0 {
        0
    } else if entries.last().0@ == id {
        entries.last().1
    } else {
        stars_in(entries.drop_last(), id)
    }
}

/// Position of the first level named `id` in `levels`, if any.
pub open spec fn first_position(levels: Seq<String>, id: Seq<char>) -> Option<int> {
    if exists|i: int| 0 <= i < levels.len() && #[trigger] levels[i]@ == id {
        Some(choose|i: int| 0 <= i < levels.len() && #[trigger] levels[i]@ == id && forall|j: int|
            0 <= j < i ==> levels[j]@ != id)
    } else {
        None
    }
}

/// Stars per level (0 to 3). A level absent was never completed.
pub struct LevelStars {
    pub entries: Vec<(String, u8)>,
}

impl LevelStars {
    /// Stars of level `id`.
    pub open spec fn stars(&self, id: Seq<char>) -> u8 {
        stars_in(self.entries@, id)
    }

    /// No level has stars yet.
    pub fn new() -> (p: Self)
        ensures
            forall|id: Seq<char>| p.stars(id) == 0,
    {
        LevelStars { entries: Vec::new() }
    }

    /// Stars earned on `level_id`; 0 when never completed.
    pub fn stars_for(&self, level_id: &String) -> (n: u8)
        ensures
            n == self.stars(level_id@),
    {
        let mut n: u8 = 0;
        let mut i: usize = 0;
        while i < self.entries.len()
            invariant
                i <= self.entries@.len(),
                n == stars_in(self.entries@.take(i as int), level_id@),
            decreases self.entries@.len() - i,
        {
            proof {
                assert(self.entries@.take(i + 1).drop_last() =~= self.entries@.take(i as int));
            }
            if self.entries[i].0 == *level_id {
                n = self.entries[i].1;
            }
            i = i + 1;
        }
        proof {
            assert(self.entries@.take(i as int) =~= self.entries@);
        }
        n
    }

    /// A level is completed once it has at least one star.
    pub fn is_completed(&self, level_id: &String) -> (r: bool)
        ensures
            r == (self.stars(level_id@) >= 1),
    {
        self.stars_for(level_id) >= 1
    }

    /// Record a win on `level_id` with `stars`: the best score is kept.
    pub fn record_stars(&mut self, level_id: &String, stars: u8)
        ensures
            final(self).stars(level_id@) == (if stars > old(self).stars(level_id@) {
                stars
            } else {
                old(self).stars(level_id@)
            }),
            forall|id: Seq<char>| id != level_id@ ==> #[trigger] final(self).stars(id) == old(self).stars(id),
    {
        let prev = self.stars_for(level_id);
        if stars > prev {
            let ghost e0 = self.entries@;
            let mut found: Option<usize> = None;
            let mut i: usize = 0;
            while i < self.entries.len()
                invariant
                    self.entries@ == e0,
                    i <= e0.len(),
                    match found {
                        Some(k) => k < i && e0[k as int].0@ == level_id@ && forall|j: int|
                            k < j < i ==> e0[j].0@ != level_id@,
                        None => forall|j: int| 0 <= j < i ==> e0[j].0@ != level_id@,
                    },
                decreases e0.len() - i,
            {
                if self.entries[i].0 == *level_id {
                    found = Some(i);
                }
                i = i + 1;
            }
            match found {
                Some(k) => {
                    let key = self.entries[k].0.clone();
                    self.entries.set(k, (key, stars));
                    proof {
                        lemma_stars_set(e0, k as int, (self.entries@[k as int].0, stars), level_id@);
                    }
                },
                None => {
                    self.entries.push((level_id.clone(), stars));
                    proof {
                        lemma_stars_absent(e0, level_id@);
                        assert(self.entries@.drop_last() =~= e0);
                    }
                },
            }
        }
    }

    /// Level `id` is open: it is the first of `levels` (all levels in play
    /// order), or the one before it is completed. A level not in the list
    /// is closed.
    pub open spec fn level_open(&self, levels: Seq<String>, id: Seq<char>) -> bool {
        match first_position(levels, id) {
            Some(p) => p == 0 || self.stars(levels[p - 1]@) >= 1,
            None => false,
        }
    }

    /// Whether level `level_id` is open.
    pub fn is_level_unlocked(&self, levels: &Vec<String>, level_id: &String) -> (r: bool)
        ensures
            r == self.level_open(levels@, level_id@),
    {
        let mut i: usize = 0;
        while i < levels.len()
            invariant
                i <= levels@.len(),
                forall|j: int| 0 <= j < i ==> levels@[j]@ != level_id@,
            decreases levels@.len() - i,
        {
            if levels[i] == *level_id {
                proof {
                    assert(levels@[i as int]@ == level_id@);
                    let p = first_position(levels@, level_id@);
                    assert(p == Some(i as int));
                }
                if i == 0 {
                    return true;
                }
                return self.is_completed(&levels[i - 1]);
            }
            i = i + 1;
        }
        false
    }

    /// A chapter is open if it is the first, or every level of the chapter
    /// before it is completed. A chapter past the end is closed.
    pub fn is_chapter_unlocked(&self, chapters: &Vec<Vec<String>>, chapter_idx: usize) -> (r: bool)
        ensures
            r == (chapter_idx == 0 || (chapter_idx <= chapters@.len() && forall|j: int|
                0 <= j < chapters@[chapter_idx - 1]@.len() ==> self.stars(
                    #[trigger] chapters@[chapter_idx - 1]@[j]@,
                ) >= 1)),
    {
        if chapter_idx == 0 {
            return true;
        }
        if chapter_idx > chapters.len() {
            return false;
        }
        let prev = &chapters[chapter_idx - 1];
        assert(prev@ == chapters@[chapter_idx - 1]@);
        let mut i: usize = 0;
        while i < prev.len()
            invariant
                i <= prev@.len(),
                1 <= chapter_idx <= chapters@.len(),
                prev@ == chapters@[chapter_idx - 1]@,
                forall|j: int| 0 <= j < i ==> self.stars(#[trigger] prev@[j]@) >= 1,
            decreases prev@.len() - i,
        {
            if !self.is_completed(&prev[i]) {
                assert(self.stars(prev@[i as int]@) < 1);
                assert(self.stars(chapters@[chapter_idx - 1]@[i as int]@) < 1);
                return false;
            }
            i = i + 1;
        }
        true
    }
}

/// No level id appears twice in `levels`.
pub open spec fn distinct_levels(levels: Seq<String>) -> bool {
    forall|i: int, j: int| 0 <= i < j < levels.len() ==> levels[i]@ != levels[j]@
}

/// Levels open one after the other: the first is always open, and
/// completing a level opens the next one.
pub proof fn lemma_levels_open_in_order(p: LevelStars, levels: Seq<String>, k: int)
    requires
        distinct_levels(levels),
        0 <= k < levels.len(),
    ensures
        k == 0 ==> p.level_open(levels, levels[k]@),
        k > 0 ==> (p.level_open(levels, levels[k]@) <==> p.stars(levels[k - 1]@) >= 1),
{
    assert(levels[k]@ == levels[k]@);
    let f = first_position(levels, levels[k]@);
    assert(f == Some(k)) by {
        let i = choose|i: int|
            0 <= i < levels.len() && #[trigger] levels[i]@ == levels[k]@ && forall|j: int|
                0 <= j < i ==> levels[j]@ != levels[k]@;
        if i < k {
            assert(levels[i]@ != levels[k]@);
        }
        if k < i {
            assert(levels[k]@ != levels[k]@);
        }
    }
}

/// The level ids of `chapters`, chapter after chapter, in play order.
pub open spec fn flat_ids(chapters: Seq<Vec<String>>) -> Seq<Seq<char>>
    decreases chapters.len(),
{
    if chapters.len() == 0 {
        Seq::empty()
    } else {
        flat_ids(chapters.drop_last()) + chapters.last()@.map_values(|l: String| l@)
    }
}

/// Chapter `c` lists level `id`.
pub open spec fn lists_level(chapters: Seq<Vec<String>>, c: int, id: Seq<char>) -> bool {
    exists|j: int| 0 <= j < chapters[c]@.len() && #[trigger] chapters[c]@[j]@ == id
}

impl LevelStars {
    /// Every level of `chapters` (each a list of level ids), in play order.
    pub fn flat_levels(chapters: &Vec<Vec<String>>) -> (levels: Vec<String>)
        ensures
            levels@.map_values(|l: String| l@) == flat_ids(chapters@),
    {
        let mut levels: Vec<String> = Vec::new();
        let mut i: usize = 0;
        while i < chapters.len()
            invariant
                i <= chapters@.len(),
                levels@.map_values(|l: String| l@) == flat_ids(chapters@.take(i as int)),
            decreases chapters@.len() - i,
        {
            let chapter = &chapters[i];
            let ghost before = levels@.map_values(|l: String| l@);
            let mut j: usize = 0;
            while j < chapter.len()
                invariant
                    j <= chapter@.len(),
                    levels@.map_values(|l: String| l@) == before + chapter@.take(j as int).map_values(
                        |l: String| l@,
                    ),
                decreases chapter@.len() - j,
            {
                let ghost prev = levels@;
                levels.push(chapter[j].clone());
                proof {
                    assert(levels@.map_values(|l: String| l@) =~= prev.map_values(|l: String| l@).push(
                        chapter@[j as int]@,
                    ));
                    assert(chapter@.take(j + 1).map_values(|l: String| l@) =~= chapter@.take(
                        j as int,
                    ).map_values(|l: String| l@).push(chapter@[j as int]@));
                }
                j = j + 1;
            }
            proof {
                assert(chapter@.take(chapter@.len() as int) =~= chapter@);
                assert(chapters@.take(i + 1).drop_last() =~= chapters@.take(i as int));
                assert(chapters@.take(i + 1).last() == chapters@[i as int]);
            }
            i = i + 1;
        }
        proof {
            assert(chapters@.take(chapters@.len() as int) =~= chapters@);
        }
        levels
    }

    /// The first chapter that lists `level_id`, if any.
    pub fn chapter_of_level(chapters: &Vec<Vec<String>>, level_id: &String) -> (c: Option<usize>)
        ensures
            match c {
                Some(i) => i < chapters@.len() && lists_level(chapters@, i as int, level_id@) && forall|k: int|
                    0 <= k < i ==> !lists_level(chapters@, k, level_id@),
                None => forall|k: int| 0 <= k < chapters@.len() ==> !lists_level(chapters@, k, level_id@),
            },
    {
        let mut i: usize = 0;
        while i < chapters.len()
            invariant
                i <= chapters@.len(),
                forall|k: int| 0 <= k < i ==> !lists_level(chapters@, k, level_id@),
            decreases chapters@.len() - i,
        {
            let chapter = &chapters[i];
            let mut j: usize = 0;
            while j < chapter.len()
                invariant
                    i < chapters@.len(),
                    j <= chapter@.len(),
                    chapter@ == chapters@[i as int]@,
                    forall|k: int| 0 <= k < i ==> !lists_level(chapters@, k, level_id@),
                    forall|m: int| 0 <= m < j ==> chapter@[m]@ != level_id@,
                decreases chapter@.len() - j,
            {
                if chapter[j] == *level_id {
                    proof {
                        assert(chapters@[i as int]@[j as int]@ == level_id@);
                    }
                    return Some(i);
                }
                j = j + 1;
            }
            proof {
                if lists_level(chapters@, i as int, level_id@) {
                    let m = choose|m: int| 0 <= m < chapters@[i as int]@.len() && #[trigger] chapters@[i as int]@[m]@
                        == level_id@;
                    assert(chapter@[m]@ == level_id@);
                }
            }
            i = i + 1;
        }
        None
    }
}

/// Replacing the last entry for `id` with a new value for the same id
/// changes only the stars of `id`.
proof fn lemma_stars_set(e: Seq<(String, u8)>, k: int, v: (String, u8), id: Seq<char>)
    requires
        0 <= k < e.len(),
        e[k].0@ == id,
        v.0@ == id,
        forall|j: int| k < j < e.len() ==> e[j].0@ != id,
    ensures
        stars_in(e.update(k, v), id) == v.1,
        forall|other: Seq<char>| other != id ==> #[trigger] stars_in(e.update(k, v), other) == stars_in(e, other),
    decreases e.len(),
{
    if k < e.len() - 1 {
        lemma_stars_set(e.drop_last(), k, v, id);
        assert(e.update(k, v).drop_last() =~= e.drop_last().update(k, v));
    } else {
        assert(e.update(k, v).drop_last() =~= e.drop_last());
    }
    assert forall|other: Seq<char>| other != id implies #[trigger] stars_in(e.update(k, v), other)
        == stars_in(e, other) by {
        if k < e.len() - 1 {
            assert(e.update(k, v).drop_last() =~= e.drop_last().update(k, v));
            assert(stars_in(e.drop_last().update(k, v), other) == stars_in(e.drop_last(), other));
        } else {
            assert(e.update(k, v).drop_last() =~= e.drop_last());
        }
    }
}

/// Adding an entry for an id that has none gives it that entry's stars,
/// and leaves the others.
proof fn lemma_stars_absent(e: Seq<(String, u8)>, id: Seq<char>)
    requires
        forall|j: int| 0 <= j < e.len() ==> e[j].0@ != id,
    ensures
        stars_in(e, id) == 0,
    decreases e.len(),
{
    if e.len() > 0 {
        lemma_stars_absent(e.drop_last(), id);
    }
}

} // verus!
