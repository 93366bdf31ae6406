//! Strings as sequences of characters.

use vstd::prelude::*;

verus! {

/// `String::push` appends one character.
pub assume_specification[ String::push ](s: &mut String, ch: char)
    ensures
        final(s)@ == old(s)@.push(ch),
;

/// Whether `pattern` stands in `text` at position `at`.
pub open spec fn occurs_at(text: Seq<char>, pattern: Seq<char>, at: int) -> bool {
    &&& 0 <= at <= at + pattern.len() <= text.len()
    &&& text.subrange(at, at + pattern.len()) == pattern
}

/// Whether `text` begins with `prefix`.
pub open spec fn begins_with(text: Seq<char>, prefix: Seq<char>) -> bool {
    prefix.is_prefix_of(text)
}

/// The characters of a string.
pub(crate) fn chars_of(s: &str) -> (chars: Vec<char>)
    ensures
        chars@ == s@,
{
    let mut chars: Vec<char> = Vec::new();
    for c in it: s.chars()
        invariant
            it.seq() == s@,
            chars@ == s@.take(it.index() as int),
    {
        chars.push(c);
    }
    chars
}

/// The characters of each string of a list.
pub open spec fn texts(list: Seq<String>) -> Seq<Seq<char>> {
    list.map_values(|s: String| s@)
}

/// The decimal digits of a number.
pub open spec fn digits(n: nat) -> Seq<char>
    decreases n,
{
    let last = (48 + n % 10) as char;
    if n < 10 {
        seq![last]
    } else {
        digits(n / 10).push(last)
    }
}

/// An integer in decimal.
pub open spec fn integer_text(n: int) -> Seq<char> {
    if n < 0 {
        seq!['-'] + digits((-n) as nat)
    } else {
        digits(n as nat)
    }
}

/// Digits are the characters from 0 to 9.
proof fn lemma_digits(n: nat)
    ensures
        digits(n).len() > 0,
        forall|i: int| 0 <= i < digits(n).len() ==> '0' <= #[trigger] digits(n)[i] <= '9',
    decreases n,
{
    if n >= 10 {
        lemma_digits(n / 10);
    }
}

/// An integer in decimal is not empty, and has digits and minus signs only.
pub(crate) proof fn lemma_integer_text(n: int)
    ensures
        integer_text(n).len() > 0,
        forall|i: int|
            0 <= i < integer_text(n).len() ==> (#[trigger] integer_text(n)[i] == '-' || '0'
                <= integer_text(n)[i] <= '9'),
{
    if n < 0 {
        lemma_digits((-n) as nat);
    } else {
        lemma_digits(n as nat);
    }
}

/// Whether `a` comes before `b` in the order of their characters.
pub open spec fn text_less(a: Seq<char>, b: Seq<char>) -> bool
    decreases a.len(),
{
    if b.len() == 0 {
        false
    } else if a.len() == 0 {
        true
    } else {
        a[0] < b[0] || (a[0] == b[0] && text_less(a.skip(1), b.skip(1)))
    }
}

/// Whether `list` holds the texts of `set`, each once, in the order of their
/// characters.
pub open spec fn lists_in_order(list: Seq<Seq<char>>, set: Set<Seq<char>>) -> bool {
    &&& forall|text: Seq<char>| #[trigger] set.contains(text) <==> list.contains(text)
    &&& forall|i: int, j: int|
        0 <= i < j < list.len() ==> text_less(#[trigger] list[i], #[trigger] list[j])
}

/// The texts of `set` in the order of their characters.
pub open spec fn in_order(set: Set<Seq<char>>) -> Seq<Seq<char>> {
    choose|list: Seq<Seq<char>>| lists_in_order(list, set)
}

/// Of two texts at most one comes before the other, and none before itself.
pub(crate) proof fn lemma_text_less_asymmetric(a: Seq<char>, b: Seq<char>)
    ensures
        !(text_less(a, b) && text_less(b, a)),
    decreases a.len(),
{
    if a.len() > 0 && b.len() > 0 {
        lemma_text_less_asymmetric(a.skip(1), b.skip(1));
    }
}

/// Of two different texts one comes before the other.
proof fn lemma_text_less_total(a: Seq<char>, b: Seq<char>)
    ensures
        a == b || text_less(a, b) || text_less(b, a),
    decreases a.len(),
{
    if a.len() > 0 && b.len() > 0 {
        lemma_text_less_total(a.skip(1), b.skip(1));
        if a[0] == b[0] && a.skip(1) == b.skip(1) {
            assert(a == seq![a[0]] + a.skip(1));
            assert(b == seq![b[0]] + b.skip(1));
        }
    } else if a.len() == 0 && b.len() == 0 {
        assert(a == b);
    }
}

/// What comes before a text comes before all that follow it.
pub(crate) proof fn lemma_text_less_transitive(a: Seq<char>, b: Seq<char>, c: Seq<char>)
    requires
        text_less(a, b),
        text_less(b, c),
    ensures
        text_less(a, c),
    decreases a.len(),
{
    if a.len() > 0 && a[0] == b[0] && b[0] == c[0] {
        lemma_text_less_transitive(a.skip(1), b.skip(1), c.skip(1));
    }
}

/// An ordered list takes in one more text.
proof fn lemma_insert_in_order(list: Seq<Seq<char>>, set: Set<Seq<char>>, text: Seq<char>) -> (longer:
    Seq<Seq<char>>)
    requires
        lists_in_order(list, set),
        !set.contains(text),
    ensures
        lists_in_order(longer, set.insert(text)),
    decreases list.len(),
{
    let larger = set.insert(text);
    if list.len() == 0 || text_less(text, list[0]) {
        let longer = seq![text] + list;
        assert forall|t: Seq<char>| #[trigger] larger.contains(t) <==> longer.contains(t) by {
            assert(longer[0] == text);
            if list.contains(t) {
                let i = choose|i: int| 0 <= i < list.len() && list[i] == t;
                assert(longer[i + 1] == t);
            }
            if longer.contains(t) && t != text {
                let i = choose|i: int| 0 <= i < longer.len() && longer[i] == t;
                assert(list[i - 1] == t);
            }
        }
        assert forall|i: int, j: int| 0 <= i < j < longer.len() implies text_less(
            #[trigger] longer[i],
            #[trigger] longer[j],
        ) by {
            assert(longer[j] == list[j - 1]);
            if i == 0 {
                if j > 1 {
                    lemma_text_less_transitive(text, list[0], list[j - 1]);
                }
            } else {
                assert(longer[i] == list[i - 1]);
            }
        }
        longer
    } else {
        let first = list[0];
        lemma_text_less_total(text, first);
        assert(set.contains(first));
        lemma_tail_in_order(list, set);
        let tail = lemma_insert_in_order(list.skip(1), set.remove(first), text);
        let longer = seq![first] + tail;
        let rest = set.remove(first).insert(text);
        assert forall|t: Seq<char>| #[trigger] larger.contains(t) <==> longer.contains(t) by {
            assert(longer[0] == first);
            if larger.contains(t) && t != first {
                assert(rest.contains(t));
                let i = choose|i: int| 0 <= i < tail.len() && tail[i] == t;
                assert(longer[i + 1] == t);
            }
            if longer.contains(t) && t != first {
                let i = choose|i: int| 0 <= i < longer.len() && longer[i] == t;
                assert(tail[i - 1] == t);
                assert(rest.contains(t));
            }
        }
        assert forall|i: int, j: int| 0 <= i < j < longer.len() implies text_less(
            #[trigger] longer[i],
            #[trigger] longer[j],
        ) by {
            assert(longer[j] == tail[j - 1]);
            if i == 0 {
                assert(rest.contains(tail[j - 1]));
                if tail[j - 1] != text {
                    let k = choose|k: int| 0 <= k < list.len() && list[k] == tail[j - 1];
                    assert(set.contains(tail[j - 1]));
                    assert(k > 0);
                }
            } else {
                assert(longer[i] == tail[i - 1]);
            }
        }
        longer
    }
}

/// An ordered list holds no text twice.
pub(crate) proof fn lemma_listed_once(list: Seq<Seq<char>>, set: Set<Seq<char>>, i: int, j: int)
    requires
        lists_in_order(list, set),
        0 <= i < list.len(),
        0 <= j < list.len(),
        i != j,
    ensures
        list[i] != list[j],
{
    lemma_text_less_asymmetric(list[i], list[j]);
}

/// A finite set of texts can be listed in order.
pub(crate) proof fn lemma_order_exists(set: Set<Seq<char>>)
    requires
        set.finite(),
    ensures
        lists_in_order(in_order(set), set),
    decreases set.len(),
{
    if set.len() == 0 {
        assert(set == Set::<Seq<char>>::empty());
        assert(lists_in_order(seq![], set));
    } else {
        let text = set.choose();
        let rest = set.remove(text);
        lemma_order_exists(rest);
        let list = lemma_insert_in_order(in_order(rest), rest, text);
        assert(rest.insert(text) == set);
        assert(lists_in_order(list, set));
    }
}

/// A set of texts that can be listed is finite.
pub(crate) proof fn lemma_listed_is_finite(list: Seq<Seq<char>>, set: Set<Seq<char>>)
    requires
        lists_in_order(list, set),
    ensures
        set.finite(),
{
    vstd::seq_lib::seq_to_set_is_finite(list);
    assert(set == list.to_set());
}

/// There is one way to list a set of texts in order.
pub(crate) proof fn lemma_order_is_unique(a: Seq<Seq<char>>, b: Seq<Seq<char>>, set: Set<Seq<char>>)
    requires
        lists_in_order(a, set),
        lists_in_order(b, set),
    ensures
        a == b,
    decreases a.len(),
{
    if a.len() == 0 {
        if b.len() > 0 {
            assert(set.contains(b[0]));
        }
        assert(a == b);
    } else {
        let first = a[0];
        assert(set.contains(first));
        assert(b.len() > 0);
        assert(set.contains(b[0]));
        assert(first == b[0]) by {
            let i = choose|i: int| 0 <= i < b.len() && b[i] == first;
            let j = choose|j: int| 0 <= j < a.len() && a[j] == b[0];
            lemma_text_less_asymmetric(first, b[0]);
        }
        let rest = set.remove(first);
        lemma_tail_in_order(a, set);
        lemma_tail_in_order(b, set);
        lemma_order_is_unique(a.skip(1), b.skip(1), rest);
        assert(a == seq![first] + a.skip(1));
        assert(b == seq![first] + b.skip(1));
    }
}

/// Without its first text an ordered list is the ordered list of the others.
proof fn lemma_tail_in_order(list: Seq<Seq<char>>, set: Set<Seq<char>>)
    requires
        lists_in_order(list, set),
        list.len() > 0,
    ensures
        lists_in_order(list.skip(1), set.remove(list[0])),
{
    let tail = list.skip(1);
    let rest = set.remove(list[0]);
    assert forall|text: Seq<char>| #[trigger] rest.contains(text) <==> tail.contains(text) by {
        if rest.contains(text) {
            let i = choose|i: int| 0 <= i < list.len() && list[i] == text;
            assert(tail[i - 1] == text);
        }
        if tail.contains(text) {
            let i = choose|i: int| 0 <= i < tail.len() && tail[i] == text;
            assert(list[i + 1] == text);
            lemma_text_less_asymmetric(text, text);
        }
    }
    assert forall|i: int, j: int| 0 <= i < j < tail.len() implies text_less(
        #[trigger] tail[i],
        #[trigger] tail[j],
    ) by {
        assert(tail[i] == list[i + 1] && tail[j] == list[j + 1]);
    }
}

/// Whether `pattern` stands somewhere in `text`.
pub open spec fn occurs_in(text: Seq<char>, pattern: Seq<char>) -> bool {
    exists|at: int| occurs_at(text, pattern, at)
}

/// Whether `pattern` stands in `text` at position `at`, and not before.
pub open spec fn occurs_first_at(text: Seq<char>, pattern: Seq<char>, at: int) -> bool {
    &&& occurs_at(text, pattern, at)
    &&& forall|before: int| 0 <= before < at ==> !occurs_at(text, pattern, before)
}

/// Whether `pattern` stands in `text` at position `at`, and nowhere else.
pub open spec fn occurs_only_at(text: Seq<char>, pattern: Seq<char>, at: int) -> bool {
    &&& occurs_at(text, pattern, at)
    &&& forall|other: int| occurs_at(text, pattern, other) ==> other == at
}

/// What stands somewhere in a text has a first place there.
pub(crate) proof fn lemma_first_exists(text: Seq<char>, pattern: Seq<char>)
    requires
        occurs_in(text, pattern),
    ensures
        exists|at: int| occurs_first_at(text, pattern, at),
{
    let at = choose|at: int| occurs_at(text, pattern, at);
    lemma_first_up_to(text, pattern, at);
}

/// What stands at a position has a first place up to there.
proof fn lemma_first_up_to(text: Seq<char>, pattern: Seq<char>, at: int)
    requires
        occurs_at(text, pattern, at),
    ensures
        exists|first: int| occurs_first_at(text, pattern, first),
    decreases at,
{
    if exists|before: int| 0 <= before < at && occurs_at(text, pattern, before) {
        let before = choose|before: int| 0 <= before < at && occurs_at(text, pattern, before);
        lemma_first_up_to(text, pattern, before);
    } else {
        assert(occurs_first_at(text, pattern, at));
    }
}

/// `text` with `replacement` in place of what stands at `at`, `length`
/// characters long.
pub open spec fn spliced(text: Seq<char>, at: int, length: nat, replacement: Seq<char>) -> Seq<
    char,
> {
    text.take(at) + replacement + text.skip(at + length)
}

/// `text` with the first `pattern` in it replaced, or `text` itself when there
/// is none.
pub open spec fn first_replaced(
    text: Seq<char>,
    pattern: Seq<char>,
    replacement: Seq<char>,
) -> Seq<char> {
    if occurs_in(text, pattern) {
        let at = choose|at: int| occurs_first_at(text, pattern, at);
        spliced(text, at, pattern.len(), replacement)
    } else {
        text
    }
}

/// Whether `pattern` stands in `text` at position `at`.
fn stands_at(text: &Vec<char>, pattern: &Vec<char>, at: usize) -> (found: bool)
    requires
        at <= text@.len(),
    ensures
        found == occurs_at(text@, pattern@, at as int),
{
    let size = text.len();
    if pattern.len() > size - at {
        return false;
    }
    let mut i: usize = 0;
    while i < pattern.len()
        invariant
            i <= pattern@.len(),
            at + pattern@.len() <= size == text@.len(),
            forall|k: int| 0 <= k < i ==> text@[at + k] == pattern@[k],
        decreases pattern@.len() - i,
    {
        if text[at + i] != pattern[i] {
            assert(text@.subrange(at as int, at + pattern@.len())[i as int] == text@[at + i]);
            return false;
        }
        i = i + 1;
    }
    assert(text@.subrange(at as int, at + pattern@.len()) == pattern@);
    true
}

/// Where `pattern` first stands in `text`.
pub(crate) fn find(text: &Vec<char>, pattern: &Vec<char>) -> (found: Option<usize>)
    ensures
        match found {
            Some(at) => occurs_first_at(text@, pattern@, at as int),
            None => !occurs_in(text@, pattern@),
        },
{
    let mut at: usize = 0;
    while at < text.len()
        invariant
            at <= text@.len(),
            forall|before: int| 0 <= before < at ==> !occurs_at(text@, pattern@, before),
        decreases text@.len() - at,
    {
        if stands_at(text, pattern, at) {
            return Some(at);
        }
        at = at + 1;
    }
    if stands_at(text, pattern, at) {
        return Some(at);
    }
    None
}

/// `text` with `replacement` in place of what stands at `at`, `length`
/// characters long.
pub(crate) fn splice(text: &Vec<char>, at: usize, length: usize, replacement: &str) -> (result: String)
    requires
        at + length <= text@.len(),
    ensures
        result@ == spliced(text@, at as int, length as nat, replacement@),
{
    let size = text.len();
    let mut result = String::new();
    let mut i: usize = 0;
    while i < at
        invariant
            i <= at <= text@.len(),
            result@ == text@.take(i as int),
        decreases at - i,
    {
        result.push(text[i]);
        i = i + 1;
        assert(text@.take(i as int) == text@.take(i - 1).push(text@[i - 1]));
    }
    result.append(replacement);
    assert(at + length <= size);
    let mut j: usize = at + length;
    let ghost head = result@;
    while j < text.len()
        invariant
            at + length <= j <= text@.len(),
            result@ == head + text@.subrange(at + length, j as int),
        decreases text@.len() - j,
    {
        result.push(text[j]);
        j = j + 1;
        assert(text@.subrange(at + length, j as int) == text@.subrange(at + length, j - 1).push(
            text@[j - 1],
        ));
    }
    assert(text@.subrange(at + length, j as int) == text@.skip(at + length));
    result
}

/// Whether two strings have the same characters.
pub(crate) fn same_text(a: &str, b: &str) -> (same: bool)
    ensures
        same == (a@ == b@),
{
    let left = chars_of(a);
    let right = chars_of(b);
    let same = left.len() == right.len() && stands_at(&left, &right, 0);
    assert(same ==> left@.subrange(0, right@.len() as int) == left@);
    assert(a@ == b@ ==> left@.subrange(0, right@.len() as int) == right@);
    same
}

/// Whether `s` begins with `prefix`.
pub(crate) fn starts_with(s: &str, prefix: &str) -> (result: bool)
    ensures
        result == begins_with(s@, prefix@),
{
    let text = chars_of(s);
    let start = chars_of(prefix);
    assert(begins_with(text@, start@) ==> text@.subrange(0, start@.len() as int) == start@);
    stands_at(&text, &start, 0)
}

/// Texts are ordered by the first character in which they differ, and what is a
/// beginning of a longer text comes before it.
pub proof fn law_texts_are_ordered_by_their_characters(
    common: Seq<char>,
    a: Seq<char>,
    b: Seq<char>,
)
    requires
        a.len() > 0 && b.len() > 0 ==> a[0] != b[0],
    ensures
        text_less(common + a, common + b) == if a.len() > 0 && b.len() > 0 {
            a[0] < b[0]
        } else {
            a.len() < b.len()
        },
    decreases common.len(),
{
    if common.len() == 0 {
        assert(common + a == a);
        assert(common + b == b);
    } else {
        let rest = common.skip(1);
        law_texts_are_ordered_by_their_characters(rest, a, b);
        assert((common + a).skip(1) == rest + a);
        assert((common + b).skip(1) == rest + b);
        assert((common + a)[0] == common[0] && (common + b)[0] == common[0]);
    }
}

/// A finite set of texts is listed with each of its texts once, those that come
/// before others in the order of their characters standing before them.
pub proof fn law_texts_are_listed_once_and_in_order(set: Set<Seq<char>>, text: Seq<char>, i: int, j: int)
    requires
        set.finite(),
    ensures
        set.contains(text) <==> in_order(set).contains(text),
        0 <= i < j < in_order(set).len() ==> text_less(in_order(set)[i], in_order(set)[j])
            && in_order(set)[i] != in_order(set)[j],
{
    lemma_order_exists(set);
    if 0 <= i < j < in_order(set).len() {
        lemma_listed_once(in_order(set), set, i, j);
    }
}

} // verus!
