//! How the pages of a listing come together.
//!
//! A listing is answered page by page. Each page says where the next one starts, and the listing
//! ends with the first page that does not.

use vstd::prelude::*;
use crate::model::{opt_text, PageInfo};

verus! {

/// A page: its nodes, and where the next page starts.
pub struct Page<N> {
    pub nodes: Seq<N>,
    pub next: Option<Seq<char>>,
}

/// What was listed so far, and where the next page starts.
pub struct Progress<T> {
    pub items: Seq<T>,
    pub cursor: Option<Seq<char>>,
}

/// How a listing stands after an answer.
pub enum Outcome<T> {
    /// What was to be listed is not visible.
    Invisible,
    /// There is another page to ask for.
    More(Progress<T>),
    /// The listing is complete.
    Done(Seq<T>),
}

/// Where the page after this one starts, if there is one.
pub open spec fn next_page(info: PageInfo) -> Option<Seq<char>> {
    if info.has_next_page {
        opt_text(info.end_cursor)
    } else {
        None
    }
}

impl<T> Progress<T> {
    /// Nothing listed yet: the first page is next.
    pub open spec fn start() -> Self {
        Progress { items: Seq::empty(), cursor: None }
    }

    /// How the listing stands after an answer of which it lists what `pick` picks.
    pub open spec fn after<N>(
        self,
        answer: Option<Page<N>>,
        pick: spec_fn(N) -> Option<T>,
    ) -> Outcome<T> {
        match answer {
            None => Outcome::Invisible,
            Some(page) => {
                let items = self.items + page.nodes.filter_map(pick);
                match page.next {
                    Some(cursor) => Outcome::More(Progress { items, cursor: Some(cursor) }),
                    None => Outcome::Done(items),
                }
            },
        }
    }
}

/// How a listing stands after some answers; those after its end are not asked for.
pub open spec fn run<N, T>(
    from: Progress<T>,
    answers: Seq<Option<Page<N>>>,
    pick: spec_fn(N) -> Option<T>,
) -> Outcome<T>
    decreases answers.len(),
{
    if answers.len() == 0 {
        Outcome::More(from)
    } else {
        match from.after(answers[0], pick) {
            Outcome::More(progress) => run(progress, answers.drop_first(), pick),
            outcome => outcome,
        }
    }
}

/// Pages that are a whole listing: each but the last says where the next one starts.
pub open spec fn complete<N>(pages: Seq<Page<N>>) -> bool {
    &&& pages.len() > 0
    &&& pages.last().next is None
    &&& forall|i: int| 0 <= i < pages.len() - 1 ==> (#[trigger] pages[i]).next is Some
}

/// The nodes of all pages, in order.
pub open spec fn all_nodes<N>(pages: Seq<Page<N>>) -> Seq<N>
    decreases pages.len(),
{
    if pages.len() == 0 {
        Seq::empty()
    } else {
        pages[0].nodes + all_nodes(pages.drop_first())
    }
}

/// Pages as answers.
pub open spec fn answered<N>(pages: Seq<Page<N>>) -> Seq<Option<Page<N>>> {
    pages.map_values(|p: Page<N>| Some(p))
}

proof fn lemma_filter_map_add<N, T>(a: Seq<N>, b: Seq<N>, pick: spec_fn(N) -> Option<T>)
    ensures
        (a + b).filter_map(pick) == a.filter_map(pick) + b.filter_map(pick),
    decreases b.len(),
{
    if b.len() == 0 {
        assert(a + b == a);
        assert(b.filter_map(pick) == Seq::<T>::empty());
    } else {
        lemma_filter_map_add(a, b.drop_last(), pick);
        assert((a + b).drop_last() == a + b.drop_last());
        assert((a + b).last() == b.last());
    }
    assert((a + b).filter_map(pick) =~= a.filter_map(pick) + b.filter_map(pick));
}

proof fn lemma_pages_come_together<N, T>(
    from: Progress<T>,
    pages: Seq<Page<N>>,
    pick: spec_fn(N) -> Option<T>,
)
    requires
        complete(pages),
    ensures
        run(from, answered(pages), pick) == Outcome::Done(
            from.items + all_nodes(pages).filter_map(pick),
        ),
    decreases pages.len(),
{
    let answers = answered(pages);
    assert(answers[0] == Some(pages[0]));
    lemma_filter_map_add(pages[0].nodes, all_nodes(pages.drop_first()), pick);
    let items = from.items + pages[0].nodes.filter_map(pick);
    if pages.len() == 1 {
        assert(all_nodes(pages.drop_first()) == Seq::<N>::empty());
        assert(from.items + all_nodes(pages).filter_map(pick) =~= items);
    } else {
        let rest = pages.drop_first();
        assert(pages[0].next is Some);
        assert forall|i: int| 0 <= i < rest.len() - 1 implies (#[trigger] rest[i]).next is Some by {
            assert(rest[i] == pages[i + 1]);
        }
        let progress = Progress { items, cursor: pages[0].next };
        lemma_pages_come_together(progress, rest, pick);
        assert(answers.drop_first() =~= answered(rest));
        assert(items + all_nodes(rest).filter_map(pick) =~= from.items + all_nodes(
            pages,
        ).filter_map(pick));
    }
}

/// A listing that is answered in full holds what is picked from the nodes of all its pages, in
/// order: nothing is lost between pages and nothing is listed twice.
pub proof fn pages_come_together<N, T>(pages: Seq<Page<N>>, pick: spec_fn(N) -> Option<T>)
    requires
        complete(pages),
    ensures
        run(Progress::start(), answered(pages), pick) == Outcome::Done(
            all_nodes(pages).filter_map(pick),
        ),
{
    lemma_pages_come_together(Progress::<T>::start(), pages, pick);
    assert(Progress::<T>::start().items + all_nodes(pages).filter_map(pick) =~= all_nodes(
        pages,
    ).filter_map(pick));
}

/// How many nodes come in a page makes no difference to what is listed.
pub proof fn page_size_does_not_matter<N, T>(
    a: Seq<Page<N>>,
    b: Seq<Page<N>>,
    pick: spec_fn(N) -> Option<T>,
)
    requires
        complete(a),
        complete(b),
        all_nodes(a) == all_nodes(b),
    ensures
        run(Progress::start(), answered(a), pick) == run(Progress::start(), answered(b), pick),
{
    pages_come_together(a, pick);
    pages_come_together(b, pick);
}

/// A listing that goes on asks for the page that starts where the last answer said.
pub proof fn every_page_starts_where_the_last_one_ended<N, T>(
    from: Progress<T>,
    answers: Seq<Option<Page<N>>>,
    pick: spec_fn(N) -> Option<T>,
)
    requires
        answers.len() > 0,
        run(from, answers, pick) is More,
    ensures
        answers.last() is Some,
        answers.last()->0.next is Some,
        run(from, answers, pick)->More_0.cursor == answers.last()->0.next,
    decreases answers.len(),
{
    if answers.len() > 1 {
        match from.after(answers[0], pick) {
            Outcome::More(progress) => {
                every_page_starts_where_the_last_one_ended(progress, answers.drop_first(), pick);
            },
            _ => {},
        }
    } else {
        reveal_with_fuel(run, 2);
    }
}

/// What is not visible cannot be listed, however many pages came before.
pub proof fn an_invisible_answer_ends_the_listing<N, T>(
    from: Progress<T>,
    answers: Seq<Option<Page<N>>>,
    pick: spec_fn(N) -> Option<T>,
)
    requires
        run(from, answers, pick) is More,
    ensures
        run(from, answers.push(None), pick) is Invisible,
    decreases answers.len(),
{
    let more = answers.push(None);
    if answers.len() > 0 {
        assert(more.drop_first() =~= answers.drop_first().push(None));
        match from.after(answers[0], pick) {
            Outcome::More(progress) => {
                an_invisible_answer_ends_the_listing(progress, answers.drop_first(), pick);
            },
            _ => {},
        }
    }
}

/// Where the page after this one starts, if there is one.
pub fn next_cursor(info: PageInfo) -> (res: Option<String>)
    ensures
        opt_text(res) == next_page(info),
{
    if info.has_next_page {
        info.end_cursor
    } else {
        None
    }
}

} // verus!
