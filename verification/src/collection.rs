//! The in-memory library: the catalogue of books, and the set of
//! books currently being read.  A book being read stays in the
//! catalogue; reading it only marks it active.

use vstd::prelude::*;

use crate::error::LibraryError;

verus! {

/// The content of a book.
#[derive(Debug)]
struct Content {
    description: String,
    pages: Vec<String>,
}

/// A book: a titled sequence of pages with a description.
#[derive(Debug)]
pub struct Book {
    pub title: String,
    pub description: String,
    pub pages: Vec<String>,
}

/// The overall container listing both the actively read books and the
/// books in the library.
#[derive(Debug)]
pub struct Library {
    active: Vec<String>,
    collection: Vec<(String, Content)>,
}

spec fn title_idx(rows: Seq<(String, Content)>, t: Seq<char>) -> int
    decreases rows.len(),
{
    if rows.len() == 0 {
        0
    } else if rows[0].0@ == t {
        0
    } else {
        1 + title_idx(rows.drop_first(), t)
    }
}

proof fn lemma_title_idx_at(rows: Seq<(String, Content)>, t: Seq<char>, j: int)
    requires
        0 <= j <= rows.len(),
        forall|i: int| 0 <= i < j ==> (#[trigger] rows[i]).0@ != t,
        j < rows.len() ==> rows[j].0@ == t,
    ensures
        title_idx(rows, t) == j,
    decreases j,
{
    if j > 0 {
        lemma_title_idx_at(rows.drop_first(), t, j - 1);
    }
}

proof fn lemma_title_idx_bounds(rows: Seq<(String, Content)>, t: Seq<char>)
    ensures
        0 <= title_idx(rows, t) <= rows.len(),
        title_idx(rows, t) < rows.len() ==> rows[title_idx(rows, t)].0@ == t,
    decreases rows.len(),
{
    if rows.len() > 0 && rows[0].0@ != t {
        lemma_title_idx_bounds(rows.drop_first(), t);
    }
}

proof fn lemma_title_idx_push(rows: Seq<(String, Content)>, x: (String, Content), t: Seq<char>)
    ensures
        title_idx(rows, t) < rows.len() ==> title_idx(rows.push(x), t) == title_idx(rows, t),
        title_idx(rows, t) >= rows.len() && x.0@ == t ==> title_idx(rows.push(x), t) == rows.len(),
        title_idx(rows, t) >= rows.len() && x.0@ != t ==> title_idx(rows.push(x), t) == rows.len()
            + 1,
        rows.push(x)[rows.len() as int] == x,
    decreases rows.len(),
{
    lemma_title_idx_bounds(rows, t);
    if rows.len() == 0 {
        assert(rows.push(x)[0] == x);
        assert(rows.push(x).drop_first() =~= Seq::<(String, Content)>::empty());
        assert(title_idx(Seq::<(String, Content)>::empty(), t) == 0);
        if x.0@ != t {
            assert(title_idx(rows.push(x), t) == 1 + title_idx(rows.push(x).drop_first(), t));
        }
    } else {
        assert(rows.push(x)[0] == rows[0]);
        if rows[0].0@ != t {
            lemma_title_idx_push(rows.drop_first(), x, t);
            assert(rows.push(x).drop_first() =~= rows.drop_first().push(x));
            assert(title_idx(rows.push(x), t) == 1 + title_idx(rows.drop_first().push(x), t));
            assert(title_idx(rows, t) == 1 + title_idx(rows.drop_first(), t));
        }
    }
}

impl Library {
    /// An empty library.
    pub fn new() -> (r: Library)
        ensures
            forall|t: Seq<char>| !r.has_book(t),
            forall|t: Seq<char>| !r.is_reading(t),
    {
        let r = Library { active: Vec::new(), collection: Vec::new() };
        proof {
            assert forall|t: Seq<char>| !r.has_book(t) by {
                lemma_title_idx_bounds(r.collection@, t);
            }
        }
        r
    }

    /// Does a book with this title exist in the catalogue?
    pub closed spec fn has_book(self, t: Seq<char>) -> bool {
        title_idx(self.collection@, t) < self.collection@.len()
    }

    /// The description of the book with this title.
    pub closed spec fn description_of(self, t: Seq<char>) -> Seq<char> {
        self.collection@[title_idx(self.collection@, t)].1.description@
    }

    /// The pages of the book with this title.
    pub closed spec fn pages_of(self, t: Seq<char>) -> Seq<Seq<char>> {
        self.collection@[title_idx(self.collection@, t)].1.pages.deep_view()
    }

    /// Is the book with this title being read?
    pub closed spec fn is_reading(self, t: Seq<char>) -> bool {
        exists|i: int| 0 <= i < self.active@.len() && (#[trigger] self.active@[i])@ == t
    }

    /// Add a new book.  If a book with the same title already exists,
    /// `LibraryError::Exists` is returned and nothing changes.
    pub fn add(&mut self, bk: Book) -> (r: Result<(), LibraryError>)
        ensures
            old(self).has_book(bk.title@) ==> *final(self) == *old(self) && (r matches Err(
                LibraryError::Exists(t),
            ) && t@ == bk.title@),
            !old(self).has_book(bk.title@) ==> {
                &&& r is Ok
                &&& final(self).has_book(bk.title@)
                &&& final(self).description_of(bk.title@) == bk.description@
                &&& final(self).pages_of(bk.title@) == bk.pages.deep_view()
                &&& forall|t: Seq<char>|
                    t != bk.title@ ==> #[trigger] final(self).has_book(t) == old(self).has_book(t)
                &&& forall|t: Seq<char>|
                    t != bk.title@ && old(self).has_book(t) ==> (#[trigger] final(self).description_of(t)) == old(self).description_of(t) && final(self).pages_of(t) == old(self).pages_of(t)
                &&& forall|t: Seq<char>| #[trigger]
                    final(self).is_reading(t) == old(self).is_reading(t)
            },
    {
        let ghost rows0 = self.collection@;
        let mut i: usize = 0;
        while i < self.collection.len()
            invariant
                self == old(self),
                rows0 == self.collection@,
                i <= rows0.len(),
                forall|j: int| 0 <= j < i ==> (#[trigger] rows0[j]).0@ != bk.title@,
            decreases rows0.len() - i,
        {
            if self.collection[i].0 == bk.title {
                proof {
                    lemma_title_idx_at(rows0, bk.title@, i as int);
                }
                return Err(LibraryError::Exists(bk.title));
            }
            i += 1;
        }
        proof {
            lemma_title_idx_at(rows0, bk.title@, rows0.len() as int);
        }
        let content = Content { description: bk.description, pages: bk.pages };
        let row = (bk.title, content);
        let ghost rowg = row;
        self.collection.push(row);
        proof {
            lemma_title_idx_push(rows0, rowg, rowg.0@);
            assert(title_idx(final(self).collection@, rowg.0@) == rows0.len());
            assert(final(self).collection@[rows0.len() as int] == rowg);
            assert(final(self).has_book(rowg.0@));
            assert(final(self).description_of(rowg.0@) == rowg.1.description@);
            assert(final(self).pages_of(rowg.0@) == rowg.1.pages.deep_view());
            assert(final(self).active@ == old(self).active@);
            assert forall|t: Seq<char>| #[trigger] final(self).is_reading(t) == old(self).is_reading(t) by {
                if final(self).is_reading(t) {
                    let k = choose|k: int|
                        0 <= k < final(self).active@.len() && (#[trigger] final(self).active@[k])@
                            == t;
                    assert(old(self).active@[k]@ == t);
                }
                if old(self).is_reading(t) {
                    let k = choose|k: int|
                        0 <= k < old(self).active@.len() && (#[trigger] old(self).active@[k])@
                            == t;
                    assert(final(self).active@[k]@ == t);
                }
            }
            assert forall|t: Seq<char>| t != rowg.0@ implies #[trigger] final(self).has_book(t)
                == old(self).has_book(t) by {
                lemma_title_idx_push(rows0, rowg, t);
                lemma_title_idx_bounds(rows0, t);
            }
            assert forall|t: Seq<char>| t != rowg.0@ && old(self).has_book(t) implies (
            #[trigger] final(self).description_of(t)) == old(self).description_of(t)
                && final(self).pages_of(t) == old(self).pages_of(t) by {
                lemma_title_idx_push(rows0, rowg, t);
                lemma_title_idx_bounds(rows0, t);
            }
        }
        Ok(())
    }

    /// Mark the book with this title as being read.  A missing title
    /// yields `LibraryError::Missing`; reading a book twice is
    /// harmless.
    pub fn read(&mut self, title: &str) -> (r: Result<(), LibraryError>)
        ensures
            !old(self).has_book(title@) ==> *final(self) == *old(self) && (r matches Err(
                LibraryError::Missing(t),
            ) && t@ == title@),
            old(self).has_book(title@) ==> {
                &&& r is Ok
                &&& final(self).is_reading(title@)
                &&& forall|t: Seq<char>|
                    t != title@ ==> #[trigger] final(self).is_reading(t) == old(self).is_reading(t)
                &&& forall|t: Seq<char>| #[trigger]
                    final(self).has_book(t) == old(self).has_book(t)
                &&& forall|t: Seq<char>|
                    old(self).has_book(t) ==> (#[trigger] final(self).description_of(t)) == old(self).description_of(t) && final(self).pages_of(t) == old(self).pages_of(t)
            },
    {
        let ghost rows0 = self.collection@;
        let title_string = title.to_owned();
        let mut i: usize = 0;
        let mut found = false;
        while i < self.collection.len() && !found
            invariant
                self == old(self),
                rows0 == self.collection@,
                title_string@ == title@,
                i <= rows0.len(),
                !found ==> forall|j: int| 0 <= j < i ==> (#[trigger] rows0[j]).0@ != title@,
                found ==> old(self).has_book(title@),
            decreases rows0.len() - i, (if found {
                0int
            } else {
                1int
            }),
        {
            if self.collection[i].0 == title_string {
                proof {
                    lemma_title_idx_at(rows0, title@, i as int);
                }
                found = true;
            } else {
                i += 1;
            }
        }
        if !found {
            proof {
                lemma_title_idx_at(rows0, title@, rows0.len() as int);
            }
            return Err(LibraryError::Missing(title_string));
        }
        let ghost active0 = self.active@;
        self.active.push(title_string);
        proof {
            assert(final(self).active@ == active0.push(title_string));
            assert(final(self).active@[active0.len() as int]@ == title@);
            assert(final(self).is_reading(title@));
            assert forall|t: Seq<char>| t != title@ implies #[trigger] final(self).is_reading(t)
                == old(self).is_reading(t) by {
                if final(self).is_reading(t) {
                    let k = choose|k: int|
                        0 <= k < final(self).active@.len() && (#[trigger] final(self).active@[k])@
                            == t;
                    assert(k < active0.len());
                    assert(active0[k]@ == t);
                }
                if old(self).is_reading(t) {
                    let k = choose|k: int|
                        0 <= k < active0.len() && (#[trigger] active0[k])@ == t;
                    assert(final(self).active@[k]@ == t);
                }
            }
        }
        Ok(())
    }
}

} // verus!
