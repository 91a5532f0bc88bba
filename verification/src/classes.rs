//! Character classes of the markup grammar and the runs of characters they span.

use vstd::prelude::*;

verus! {

/// A set of characters that a run of the grammar is made of.
pub enum CharClass {
    /// Space, tab, carriage return, line feed.
    Whitespace,
    /// The ASCII letters and digits.
    Alphanumeric,
    /// What an attribute name is made of: anything but a space and `=`.
    Name,
    /// Every character but the given one.
    Except(char),
}

/// The whitespace of the grammar: space, tab, carriage return, line feed.
pub open spec fn is_whitespace(c: char) -> bool {
    c == ' ' || c == '\t' || c == '\r' || c == '\n'
}

/// The ASCII letters and digits.
pub open spec fn is_alphanumeric(c: char) -> bool {
    ('0' <= c && c <= '9') || ('a' <= c && c <= 'z') || ('A' <= c && c <= 'Z')
}

/// What may stand in an attribute name: anything but a space and `=`.
pub open spec fn is_name_char(c: char) -> bool {
    c != ' ' && c != '='
}

impl CharClass {
    /// Whether `c` belongs to the class.
    pub open spec fn holds(self, c: char) -> bool {
        match self {
            CharClass::Whitespace => is_whitespace(c),
            CharClass::Alphanumeric => is_alphanumeric(c),
            CharClass::Name => is_name_char(c),
            CharClass::Except(stop) => c != stop,
        }
    }
}

/// Whether a text is made of whitespace.
pub open spec fn blank(s: Seq<char>) -> bool {
    forall|i: int| 0 <= i < s.len() ==> is_whitespace(#[trigger] s[i])
}

/// The length of the longest prefix of `s` made of characters of `class`.
pub open spec fn run_len(s: Seq<char>, class: CharClass) -> nat
    decreases s.len(),
{
    if s.len() > 0 && class.holds(s[0]) {
        1 + run_len(s.drop_first(), class)
    } else {
        0
    }
}

/// The longest prefix of `s` made of characters of `class`.
pub open spec fn run(s: Seq<char>, class: CharClass) -> Seq<char> {
    s.take(run_len(s, class) as int)
}

/// What is left of `s` behind its longest prefix of characters of `class`.
pub open spec fn after_run(s: Seq<char>, class: CharClass) -> Seq<char> {
    s.skip(run_len(s, class) as int)
}

/// Whether `s` splits into `head` and `tail` where `head` is made of
/// characters of `class` and `tail` does not go on with one.
pub open spec fn splits_at_run(
    s: Seq<char>,
    head: Seq<char>,
    tail: Seq<char>,
    class: CharClass,
) -> bool {
    &&& s == head + tail
    &&& forall|i: int| 0 <= i < head.len() ==> class.holds(#[trigger] head[i])
    &&& tail.len() > 0 ==> !class.holds(tail[0])
}

/// A run is no longer than the text.
pub proof fn lemma_run_len_bound(s: Seq<char>, class: CharClass)
    ensures
        run_len(s, class) <= s.len(),
    decreases s.len(),
{
    if s.len() > 0 && class.holds(s[0]) {
        lemma_run_len_bound(s.drop_first(), class);
    }
}

/// A split at a maximal run is the split at `run_len`.
pub proof fn lemma_split_is_run(s: Seq<char>, head: Seq<char>, tail: Seq<char>, class: CharClass)
    requires
        splits_at_run(s, head, tail, class),
    ensures
        head.len() == run_len(s, class),
        head == run(s, class),
        tail == after_run(s, class),
    decreases head.len(),
{
    if head.len() == 0 {
        assert(s =~= tail);
    } else {
        assert(s[0] == head[0]);
        assert(s.drop_first() =~= head.drop_first() + tail);
        assert forall|i: int| 0 <= i < head.drop_first().len() implies class.holds(
            #[trigger] head.drop_first()[i],
        ) by {
            assert(head.drop_first()[i] == head[i + 1]);
        }
        lemma_split_is_run(s.drop_first(), head.drop_first(), tail, class);
    }
    assert(head =~= s.take(head.len() as int));
    assert(tail =~= s.skip(head.len() as int));
}

/// The run and what follows it make a split at a maximal run.
pub proof fn lemma_run_splits(s: Seq<char>, class: CharClass)
    ensures
        splits_at_run(s, run(s, class), after_run(s, class), class),
    decreases s.len(),
{
    lemma_run_len_bound(s, class);
    let n = run_len(s, class) as int;
    assert(s =~= s.take(n) + s.skip(n));
    if s.len() > 0 && class.holds(s[0]) {
        let t = s.drop_first();
        lemma_run_splits(t, class);
        lemma_run_len_bound(t, class);
        assert forall|i: int| 0 <= i < run(s, class).len() implies class.holds(
            #[trigger] run(s, class)[i],
        ) by {
            if i > 0 {
                assert(run(s, class)[i] == run(t, class)[i - 1]);
            }
        }
        if after_run(s, class).len() > 0 {
            assert(after_run(s, class)[0] == after_run(t, class)[0]);
        }
    }
}

/// A run goes through a prefix that is made of characters of its class.
pub proof fn lemma_run_through(head: Seq<char>, s: Seq<char>, class: CharClass)
    requires
        forall|i: int| 0 <= i < head.len() ==> class.holds(#[trigger] head[i]),
    ensures
        run_len(head + s, class) == head.len() + run_len(s, class),
        run(head + s, class) == head + run(s, class),
        after_run(head + s, class) == after_run(s, class),
{
    lemma_run_splits(s, class);
    let longer = head + run(s, class);
    assert(head + s =~= longer + after_run(s, class));
    assert forall|i: int| 0 <= i < longer.len() implies class.holds(#[trigger] longer[i]) by {
        if i < head.len() {
            assert(longer[i] == head[i]);
        } else {
            assert(longer[i] == run(s, class)[i - head.len()]);
        }
    }
    lemma_split_is_run(head + s, longer, after_run(s, class), class);
    lemma_run_len_bound(s, class);
}

/// Whether `tail` is the end of `s`: what is left of it behind some of its
/// characters.
pub open spec fn is_tail_of(tail: Seq<char>, s: Seq<char>) -> bool {
    tail.len() <= s.len() && tail == s.skip(s.len() - tail.len())
}

/// A text is an end of itself.
pub proof fn lemma_tail_whole(s: Seq<char>)
    ensures
        is_tail_of(s, s),
{
    assert(s =~= s.skip(0));
}

/// What is left behind `n` characters is an end of the text.
pub proof fn lemma_skip_is_tail(s: Seq<char>, n: int)
    requires
        0 <= n <= s.len(),
    ensures
        is_tail_of(s.skip(n), s),
{
}

/// The end of an end of a text is an end of the text.
pub proof fn lemma_tail_of_tail(a: Seq<char>, b: Seq<char>, c: Seq<char>)
    requires
        is_tail_of(a, b),
        is_tail_of(b, c),
    ensures
        is_tail_of(a, c),
{
    assert(a =~= c.skip(c.len() - a.len()));
}

/// What is left behind a run is an end of the text.
pub proof fn lemma_after_run_is_tail(s: Seq<char>, class: CharClass)
    ensures
        is_tail_of(after_run(s, class), s),
{
    lemma_run_len_bound(s, class);
}

/// The run of a text with more text behind it: where the run ends inside
/// the text, what is behind changes nothing; where it takes the whole text,
/// it goes on into what is behind.
pub proof fn lemma_run_appended(s: Seq<char>, more: Seq<char>, class: CharClass)
    ensures
        after_run(s, class).len() > 0 ==> run(s + more, class) == run(s, class) && after_run(
            s + more,
            class,
        ) == after_run(s, class) + more,
        after_run(s, class).len() == 0 ==> run(s + more, class) == s + run(more, class)
            && after_run(s + more, class) == after_run(more, class),
{
    lemma_run_splits(s, class);
    let head = run(s, class);
    let tail = after_run(s, class);
    if tail.len() > 0 {
        assert(s + more =~= head + (tail + more));
        lemma_split_is_run(s + more, head, tail + more, class);
    } else {
        assert(s =~= head);
        lemma_run_through(s, more, class);
    }
}

} // verus!
