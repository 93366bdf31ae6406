//! Removing comments from JSON with comments.

use vstd::prelude::*;

use crate::text::chars_of;

verus! {

/// How many characters of `s` belong to a string literal whose opening quote
/// has already been read: up to and with the closing quote, or all of `s` when
/// the literal is never closed. `escaped` says that the first character follows
/// a backslash.
pub open spec fn literal_rest(s: Seq<char>, escaped: bool) -> nat
    decreases s.len(),
{
    if s.len() == 0 {
        0
    } else if !escaped && s[0] == '"' {
        1
    } else {
        1 + literal_rest(s.skip(1), !escaped && s[0] == '\\')
    }
}

/// How many characters stand before the first line feed of `s`, or all of `s`
/// when it has none.
pub open spec fn line_rest(s: Seq<char>) -> nat
    decreases s.len(),
{
    if s.len() == 0 || s[0] == '\n' {
        0
    } else {
        1 + line_rest(s.skip(1))
    }
}

/// How many characters of `s` there are up to and with the first `*/`, or all
/// of `s` when it has none.
pub open spec fn block_rest(s: Seq<char>) -> nat
    decreases s.len(),
{
    if s.len() == 0 {
        0
    } else if s.len() >= 2 && s[0] == '*' && s[1] == '/' {
        2
    } else {
        1 + block_rest(s.skip(1))
    }
}

/// Whether `s` starts with a line comment.
pub open spec fn at_line_comment(s: Seq<char>) -> bool {
    s.len() >= 2 && s[0] == '/' && s[1] == '/'
}

/// Whether `s` starts with a block comment.
pub open spec fn at_block_comment(s: Seq<char>) -> bool {
    s.len() >= 2 && s[0] == '/' && s[1] == '*'
}

/// A literal does not reach past the end of the text.
pub proof fn lemma_literal_rest_bound(s: Seq<char>, escaped: bool)
    ensures
        literal_rest(s, escaped) <= s.len(),
    decreases s.len(),
{
    if s.len() > 0 && !(!escaped && s[0] == '"') {
        lemma_literal_rest_bound(s.skip(1), !escaped && s[0] == '\\');
    }
}

/// A line comment does not reach past the end of the text.
pub proof fn lemma_line_rest_bound(s: Seq<char>)
    ensures
        line_rest(s) <= s.len(),
    decreases s.len(),
{
    if s.len() > 0 && s[0] != '\n' {
        lemma_line_rest_bound(s.skip(1));
    }
}

/// A block comment does not reach past the end of the text.
pub proof fn lemma_block_rest_bound(s: Seq<char>)
    ensures
        block_rest(s) <= s.len(),
    decreases s.len(),
{
    if s.len() > 0 && !(s.len() >= 2 && s[0] == '*' && s[1] == '/') {
        lemma_block_rest_bound(s.skip(1));
    }
}

/// `s` without its comments: string literals are kept as they stand, a line
/// comment goes up to its line feed, a block comment goes with its end mark.
pub open spec fn stripped(s: Seq<char>) -> Seq<char>
    decreases s.len(),
{
    if s.len() == 0 {
        s
    } else if s[0] == '"' {
        let rest = s.skip(1);
        let end = literal_rest(rest, false) as int;
        proof {
            lemma_literal_rest_bound(rest, false);
        }
        seq!['"'] + (rest.take(end) + stripped(rest.skip(end)))
    } else if at_line_comment(s) {
        let rest = s.skip(2);
        proof {
            lemma_line_rest_bound(rest);
        }
        stripped(rest.skip(line_rest(rest) as int))
    } else if at_block_comment(s) {
        let rest = s.skip(2);
        proof {
            lemma_block_rest_bound(rest);
        }
        stripped(rest.skip(block_rest(rest) as int))
    } else {
        seq![s[0]] + stripped(s.skip(1))
    }
}

/// `s`, which starts inside a string literal, without its comments.
pub open spec fn stripped_in_literal(s: Seq<char>, escaped: bool) -> Seq<char> {
    let end = literal_rest(s, escaped) as int;
    s.take(end) + stripped(s.skip(end))
}

/// Inside a literal the first character is kept, and decides whether the
/// literal goes on.
proof fn lemma_literal_step(s: Seq<char>, escaped: bool)
    requires
        s.len() > 0,
    ensures
        stripped_in_literal(s, escaped) == seq![s[0]] + if !escaped && s[0] == '"' {
            stripped(s.skip(1))
        } else {
            stripped_in_literal(s.skip(1), !escaped && s[0] == '\\')
        },
{
    let end = literal_rest(s, escaped) as int;
    lemma_literal_rest_bound(s, escaped);
    if !escaped && s[0] == '"' {
        assert(s.take(1) == seq![s[0]]);
    } else {
        let next = !escaped && s[0] == '\\';
        let rest = literal_rest(s.skip(1), next) as int;
        lemma_literal_rest_bound(s.skip(1), next);
        assert(s.take(end) == seq![s[0]] + s.skip(1).take(rest));
        assert(s.skip(end) == s.skip(1).skip(rest));
        assert(stripped_in_literal(s, escaped) == seq![s[0]] + (s.skip(1).take(rest) + stripped(
            s.skip(1).skip(rest),
        )));
    }
}

/// The position of the first line feed at or after `from`, or the end.
fn line_end(chars: &Vec<char>, from: usize) -> (end: usize)
    requires
        from <= chars@.len(),
    ensures
        end <= chars@.len(),
        end == from + line_rest(chars@.skip(from as int)),
{
    let mut end = from;
    while end < chars.len() && chars[end] != '\n'
        invariant
            from <= end <= chars@.len(),
            from + line_rest(chars@.skip(from as int)) == end + line_rest(chars@.skip(end as int)),
        decreases chars@.len() - end,
    {
        assert(chars@.skip(end as int).skip(1) == chars@.skip(end + 1));
        end = end + 1;
    }
    end
}

/// The position behind the first `*/` at or after `from`, or the end.
fn block_end(chars: &Vec<char>, from: usize) -> (end: usize)
    requires
        from <= chars@.len(),
    ensures
        end <= chars@.len(),
        end == from + block_rest(chars@.skip(from as int)),
{
    let mut end = from;
    while end < chars.len()
        invariant
            from <= end <= chars@.len(),
            from + block_rest(chars@.skip(from as int)) == end + block_rest(
                chars@.skip(end as int),
            ),
        decreases chars@.len() - end,
    {
        assert(chars@.skip(end as int).skip(1) == chars@.skip(end + 1));
        if chars[end] == '*' && end + 1 < chars.len() && chars[end + 1] == '/' {
            return end + 2;
        }
        end = end + 1;
    }
    end
}

/// Strips the comments from a JSON text with comments: line comments (`//`) and
/// block comments (`/* */`). String literals, with their escapes, are kept as
/// they stand.
pub fn strip_jsonc_comments(input: &str) -> (result: String)
    ensures
        result@ == stripped(input@),
{
    let chars = chars_of(input);
    let mut result = String::new();
    let mut i: usize = 0;
    let mut in_string = false;
    let mut escape = false;
    assert(input@.skip(0) == input@);
    while i < chars.len()
        invariant
            chars@ == input@,
            i <= chars@.len(),
            escape ==> in_string,
            stripped(input@) == result@ + if in_string {
                stripped_in_literal(input@.skip(i as int), escape)
            } else {
                stripped(input@.skip(i as int))
            },
        decreases chars@.len() - i,
    {
        let c = chars[i];
        let ghost rest = input@.skip(i as int);
        let ghost before = result@;
        assert(rest.skip(1) == input@.skip(i + 1));
        if in_string {
            proof {
                lemma_literal_step(rest, escape);
            }
            result.push(c);
            i = i + 1;
            if escape {
                escape = false;
            } else if c == '\\' {
                escape = true;
            } else if c == '"' {
                in_string = false;
            }
            assert(result@ == before + seq![c]);
        } else if c == '"' {
            in_string = true;
            result.push(c);
            i = i + 1;
            assert(result@ == before + seq![c]);
        } else if c == '/' {
            i = i + 1;
            if i < chars.len() && chars[i] == '/' {
                assert(rest.skip(2) == input@.skip(i + 1));
                i = line_end(&chars, i + 1);
                assert(rest.skip(2).skip(line_rest(rest.skip(2)) as int) == input@.skip(i as int));
            } else if i < chars.len() && chars[i] == '*' {
                assert(rest.skip(2) == input@.skip(i + 1));
                i = block_end(&chars, i + 1);
                assert(rest.skip(2).skip(block_rest(rest.skip(2)) as int) == input@.skip(i as int));
            } else {
                // Not a comment, just a slash.
                result.push('/');
                assert(result@ == before + seq![c]);
            }
        } else {
            result.push(c);
            i = i + 1;
            assert(result@ == before + seq![c]);
        }
    }
    assert(input@.skip(i as int) == Seq::<char>::empty());
    result
}

/// Whether no comment starts in `s` outside of a string literal.
pub open spec fn comment_free(s: Seq<char>) -> bool
    decreases s.len(),
{
    if s.len() == 0 {
        true
    } else if s[0] == '"' {
        let rest = s.skip(1);
        proof {
            lemma_literal_rest_bound(rest, false);
        }
        comment_free(rest.skip(literal_rest(rest, false) as int))
    } else {
        !at_line_comment(s) && !at_block_comment(s) && comment_free(s.skip(1))
    }
}

/// Whether `s` is the rest of one string literal whose opening quote has been
/// read: its closing quote is its last character.
pub open spec fn closes_literal(s: Seq<char>, escaped: bool) -> bool
    decreases s.len(),
{
    if s.len() == 0 {
        false
    } else if !escaped && s[0] == '"' {
        s.len() == 1
    } else {
        closes_literal(s.skip(1), !escaped && s[0] == '\\')
    }
}

/// Whether `s` is one whole string literal, quotes and all.
pub open spec fn is_literal(s: Seq<char>) -> bool {
    s.len() > 0 && s[0] == '"' && closes_literal(s.skip(1), false)
}

/// A quoted name, not escaped.
pub open spec fn quoted(name: Seq<char>) -> Seq<char> {
    seq!['"'] + name + seq!['"']
}

/// How many brackets and braces are open at the end of `s`, not counting those in
/// string literals: less than none where more are closed than opened.
pub open spec fn nesting(s: Seq<char>) -> int
    decreases s.len(),
{
    if s.len() == 0 {
        0
    } else if s[0] == '"' {
        let rest = s.skip(1);
        proof {
            lemma_literal_rest_bound(rest, false);
        }
        nesting(rest.skip(literal_rest(rest, false) as int))
    } else if s[0] == '{' || s[0] == '[' {
        nesting(s.skip(1)) + 1
    } else if s[0] == '}' || s[0] == ']' {
        nesting(s.skip(1)) - 1
    } else {
        nesting(s.skip(1))
    }
}

/// A literal keeps its end when only what stands behind it is stripped.
proof fn lemma_literal_rest_of_stripped(s: Seq<char>, escaped: bool)
    ensures
        ({
            let end = literal_rest(s, escaped) as int;
            literal_rest(s.take(end) + stripped(s.skip(end)), escaped) == end
        }),
    decreases s.len(),
{
    let end = literal_rest(s, escaped) as int;
    lemma_literal_rest_bound(s, escaped);
    let out = s.take(end) + stripped(s.skip(end));
    if s.len() == 0 {
        assert(out == Seq::<char>::empty());
    } else if !escaped && s[0] == '"' {
        assert(out[0] == '"');
    } else {
        let next = !escaped && s[0] == '\\';
        lemma_literal_rest_of_stripped(s.skip(1), next);
        lemma_literal_rest_bound(s.skip(1), next);
        assert(s.skip(1).skip(end - 1) == s.skip(end));
        assert(out.skip(1) == s.skip(1).take(end - 1) + stripped(s.skip(1).skip(end - 1)));
        assert(out[0] == s[0]);
    }
}

/// Stripping leaves no comment behind.
pub proof fn law_stripped_is_comment_free(s: Seq<char>)
    ensures
        comment_free(stripped(s)),
    decreases s.len(),
{
    let out = stripped(s);
    if s.len() == 0 {
    } else if s[0] == '"' {
        let rest = s.skip(1);
        let end = literal_rest(rest, false) as int;
        lemma_literal_rest_bound(rest, false);
        lemma_literal_rest_of_stripped(rest, false);
        assert(out.skip(1) == rest.take(end) + stripped(rest.skip(end)));
        assert(out.skip(1).skip(end) == stripped(rest.skip(end)));
        law_stripped_is_comment_free(rest.skip(end));
    } else if at_line_comment(s) {
        let rest = s.skip(2);
        lemma_line_rest_bound(rest);
        law_stripped_is_comment_free(rest.skip(line_rest(rest) as int));
    } else if at_block_comment(s) {
        let rest = s.skip(2);
        lemma_block_rest_bound(rest);
        law_stripped_is_comment_free(rest.skip(block_rest(rest) as int));
    } else {
        law_stripped_is_comment_free(s.skip(1));
        assert(out.skip(1) == stripped(s.skip(1)));
        if s.len() >= 2 {
            assert(s.skip(1)[0] == s[1]);
            assert(s[0] == '/' ==> out[1] == s[1]);
        } else {
            assert(s.skip(1) == Seq::<char>::empty());
        }
    }
}

/// A text without comments is left as it stands.
pub proof fn law_comment_free_is_unchanged(s: Seq<char>)
    requires
        comment_free(s),
    ensures
        stripped(s) == s,
    decreases s.len(),
{
    if s.len() == 0 {
    } else if s[0] == '"' {
        let rest = s.skip(1);
        let end = literal_rest(rest, false) as int;
        lemma_literal_rest_bound(rest, false);
        law_comment_free_is_unchanged(rest.skip(end));
        assert(s == seq!['"'] + (rest.take(end) + rest.skip(end)));
    } else {
        law_comment_free_is_unchanged(s.skip(1));
        assert(s == seq![s[0]] + s.skip(1));
    }
}

/// Stripping twice is stripping once.
pub proof fn law_stripping_is_idempotent(s: Seq<char>)
    ensures
        stripped(stripped(s)) == stripped(s),
{
    law_stripped_is_comment_free(s);
    law_comment_free_is_unchanged(stripped(s));
}

/// A closed literal ends where it is closed, whatever follows.
proof fn lemma_closed_literal_rest(literal: Seq<char>, escaped: bool, tail: Seq<char>)
    requires
        closes_literal(literal, escaped),
    ensures
        literal_rest(literal + tail, escaped) == literal.len(),
    decreases literal.len(),
{
    let text = literal + tail;
    assert(text[0] == literal[0]);
    if !escaped && literal[0] == '"' {
    } else {
        lemma_closed_literal_rest(literal.skip(1), !escaped && literal[0] == '\\', tail);
        assert(text.skip(1) == literal.skip(1) + tail);
    }
}

/// A string literal is kept as it stands, whatever it holds: comment marks and
/// escaped quotes in it do not count.
pub proof fn law_literals_are_kept(literal: Seq<char>, tail: Seq<char>)
    requires
        is_literal(literal),
    ensures
        stripped(literal + tail) == literal + stripped(tail),
{
    let text = literal + tail;
    let inner = literal.skip(1);
    lemma_closed_literal_rest(inner, false, tail);
    assert(text.skip(1) == inner + tail);
    assert((inner + tail).take(inner.len() as int) == inner);
    assert((inner + tail).skip(inner.len() as int) == tail);
    assert(literal == seq!['"'] + inner);
    assert(text[0] == '"');
}

/// The line feed after a comment ends it.
proof fn lemma_line_rest(body: Seq<char>, tail: Seq<char>)
    requires
        !body.contains('\n'),
        tail.len() == 0 || tail[0] == '\n',
    ensures
        line_rest(body + tail) == body.len(),
    decreases body.len(),
{
    let text = body + tail;
    if body.len() > 0 {
        assert(body.contains(body[0]));
        assert forall|c: char| body.skip(1).contains(c) implies body.contains(c) by {
            let i = choose|i: int| 0 <= i < body.skip(1).len() && body.skip(1)[i] == c;
            assert(body[i + 1] == c);
        }
        lemma_line_rest(body.skip(1), tail);
        assert(text.skip(1) == body.skip(1) + tail);
    } else {
        assert(text == tail);
    }
}

/// A line comment is dropped up to its line feed, which is kept.
pub proof fn law_line_comments_are_dropped(body: Seq<char>, tail: Seq<char>)
    requires
        !body.contains('\n'),
        tail.len() == 0 || tail[0] == '\n',
    ensures
        stripped(seq!['/', '/'] + body + tail) == stripped(tail),
{
    let text = seq!['/', '/'] + body + tail;
    lemma_line_rest(body, tail);
    assert(text.skip(2) == body + tail);
    assert((body + tail).skip(body.len() as int) == tail);
}

/// The first end mark ends a block comment.
proof fn lemma_block_rest(body: Seq<char>, tail: Seq<char>)
    requires
        forall|i: int| 0 <= i < body.len() - 1 ==> !(#[trigger] body[i] == '*' && body[i + 1] == '/'),
    ensures
        block_rest(body + seq!['*', '/'] + tail) == body.len() + 2,
    decreases body.len(),
{
    let text = body + seq!['*', '/'] + tail;
    if body.len() > 0 {
        let rest = body.skip(1);
        assert forall|i: int| 0 <= i < rest.len() - 1 implies !(#[trigger] rest[i] == '*' && rest[i
            + 1] == '/') by {
            assert(rest[i] == body[i + 1]);
        }
        lemma_block_rest(rest, tail);
        assert(text.skip(1) == rest + seq!['*', '/'] + tail);
        assert(text[0] == body[0]);
    }
}

/// A block comment is dropped with its end mark.
pub proof fn law_block_comments_are_dropped(body: Seq<char>, tail: Seq<char>)
    requires
        forall|i: int| 0 <= i < body.len() - 1 ==> !(#[trigger] body[i] == '*' && body[i + 1] == '/'),
    ensures
        stripped(seq!['/', '*'] + body + seq!['*', '/'] + tail) == stripped(tail),
{
    let text = seq!['/', '*'] + body + seq!['*', '/'] + tail;
    let rest = body + seq!['*', '/'] + tail;
    lemma_block_rest(body, tail);
    assert(text.skip(2) == rest);
    assert(rest.skip(body.len() + 2int) == tail);
}

/// A block comment that is never closed is dropped to the end of the text.
pub proof fn law_open_block_comment_drops_the_rest(body: Seq<char>)
    requires
        forall|i: int| 0 <= i < body.len() - 1 ==> !(#[trigger] body[i] == '*' && body[i + 1] == '/'),
    ensures
        stripped(seq!['/', '*'] + body) == Seq::<char>::empty(),
{
    let text = seq!['/', '*'] + body;
    lemma_open_block_rest(body);
    assert(text.skip(2) == body);
    assert(body.skip(body.len() as int) == Seq::<char>::empty());
    assert(stripped(Seq::<char>::empty()) == Seq::<char>::empty());
}

/// Without an end mark a block comment takes all there is.
proof fn lemma_open_block_rest(body: Seq<char>)
    requires
        forall|i: int| 0 <= i < body.len() - 1 ==> !(#[trigger] body[i] == '*' && body[i + 1] == '/'),
    ensures
        block_rest(body) == body.len(),
    decreases body.len(),
{
    if body.len() > 0 {
        let rest = body.skip(1);
        assert forall|i: int| 0 <= i < rest.len() - 1 implies !(#[trigger] rest[i] == '*' && rest[i
            + 1] == '/') by {
            assert(rest[i] == body[i + 1]);
        }
        assert(body.len() >= 2 ==> !(body[0] == '*' && body[1] == '/'));
        lemma_open_block_rest(rest);
    }
}

/// Whether `s` ends outside of string literals and comments, and not in a slash
/// that might open a comment.
pub open spec fn ends_between_tokens(s: Seq<char>) -> bool
    decreases s.len(),
{
    if s.len() == 0 {
        true
    } else if s[0] == '"' {
        let rest = s.skip(1);
        let end = literal_rest(rest, false) as int;
        proof {
            lemma_literal_rest_bound(rest, false);
        }
        closes_literal(rest.take(end), false) && ends_between_tokens(rest.skip(end))
    } else if at_line_comment(s) {
        let rest = s.skip(2);
        let end = line_rest(rest) as int;
        proof {
            lemma_line_rest_bound(rest);
        }
        end < rest.len() && ends_between_tokens(rest.skip(end))
    } else if at_block_comment(s) {
        let rest = s.skip(2);
        let end = block_rest(rest) as int;
        proof {
            lemma_block_rest_bound(rest);
        }
        2 <= end && rest[end - 2] == '*' && rest[end - 1] == '/' && ends_between_tokens(
            rest.skip(end),
        )
    } else {
        (s[0] == '/' ==> s.len() >= 2) && ends_between_tokens(s.skip(1))
    }
}

/// A line comment with its line feed ends there, whatever follows.
proof fn lemma_line_rest_extends(s: Seq<char>, tail: Seq<char>)
    requires
        line_rest(s) < s.len(),
    ensures
        line_rest(s + tail) == line_rest(s),
    decreases s.len(),
{
    assert((s + tail)[0] == s[0]);
    if s[0] != '\n' {
        lemma_line_rest_extends(s.skip(1), tail);
        assert((s + tail).skip(1) == s.skip(1) + tail);
    }
}

/// A closed block comment ends at its end mark, whatever follows.
proof fn lemma_block_rest_extends(s: Seq<char>, tail: Seq<char>)
    requires
        ({
            let end = block_rest(s) as int;
            2 <= end && s[end - 2] == '*' && s[end - 1] == '/'
        }),
    ensures
        block_rest(s + tail) == block_rest(s),
    decreases s.len(),
{
    lemma_block_rest_bound(s);
    let text = s + tail;
    let end = block_rest(s) as int;
    assert(text[0] == s[0] && text[1] == s[1]);
    if !(s[0] == '*' && s[1] == '/') {
        lemma_block_rest_bound(s.skip(1));
        assert(end > 2);
        assert(s.skip(1)[end - 3] == s[end - 2] && s.skip(1)[end - 2] == s[end - 1]);
        lemma_block_rest_extends(s.skip(1), tail);
        assert(text.skip(1) == s.skip(1) + tail);
    }
}

/// Where the first of two texts ends between tokens, the two can be stripped
/// one by one.
pub proof fn law_stripping_goes_part_by_part(a: Seq<char>, b: Seq<char>)
    requires
        ends_between_tokens(a),
    ensures
        stripped(a + b) == stripped(a) + stripped(b),
    decreases a.len(),
{
    let text = a + b;
    if a.len() == 0 {
        assert(text == b);
        assert(stripped(a) + stripped(b) == stripped(b));
    } else if a[0] == '"' {
        let rest = a.skip(1);
        let end = literal_rest(rest, false) as int;
        lemma_literal_rest_bound(rest, false);
        law_stripping_goes_part_by_part(rest.skip(end), b);
        lemma_closed_literal_rest(rest.take(end), false, rest.skip(end) + b);
        assert(text.skip(1) == rest.take(end) + (rest.skip(end) + b));
        assert(text.skip(1).take(end) == rest.take(end));
        assert(text.skip(1).skip(end) == rest.skip(end) + b);
        assert(stripped(text) == stripped(a) + stripped(b));
    } else if at_line_comment(a) {
        let rest = a.skip(2);
        let end = line_rest(rest) as int;
        law_stripping_goes_part_by_part(rest.skip(end), b);
        lemma_line_rest_extends(rest, b);
        assert(text.skip(2) == rest + b);
        assert((rest + b).skip(end) == rest.skip(end) + b);
    } else if at_block_comment(a) {
        let rest = a.skip(2);
        let end = block_rest(rest) as int;
        lemma_block_rest_bound(rest);
        law_stripping_goes_part_by_part(rest.skip(end), b);
        lemma_block_rest_extends(rest, b);
        assert(text.skip(2) == rest + b);
        assert((rest + b).skip(end) == rest.skip(end) + b);
    } else {
        law_stripping_goes_part_by_part(a.skip(1), b);
        assert(text.skip(1) == a.skip(1) + b);
        assert(a.len() >= 2 ==> text[1] == a[1]);
        assert(stripped(text) == stripped(a) + stripped(b));
    }
}

/// A string literal ends between tokens, and holds no comment.
pub(crate) proof fn lemma_literal_is_whole(literal: Seq<char>)
    requires
        is_literal(literal),
    ensures
        ends_between_tokens(literal),
        stripped(literal) == literal,
{
    let inner = literal.skip(1);
    let nothing = Seq::<char>::empty();
    lemma_closed_literal_rest(inner, false, nothing);
    assert(inner + nothing == inner);
    assert(inner.take(inner.len() as int) == inner);
    assert(inner.skip(inner.len() as int) == nothing);
    law_literals_are_kept(literal, nothing);
    assert(literal + nothing == literal);
    assert(stripped(nothing) == nothing);
    assert(ends_between_tokens(nothing));
}

/// Where two texts end between tokens, the two together do.
pub(crate) proof fn lemma_ends_joined(a: Seq<char>, b: Seq<char>)
    requires
        ends_between_tokens(a),
        ends_between_tokens(b),
    ensures
        ends_between_tokens(a + b),
    decreases a.len(),
{
    let text = a + b;
    if a.len() == 0 {
        assert(text == b);
    } else if a[0] == '"' {
        let rest = a.skip(1);
        let end = literal_rest(rest, false) as int;
        lemma_literal_rest_bound(rest, false);
        lemma_ends_joined(rest.skip(end), b);
        lemma_closed_literal_rest(rest.take(end), false, rest.skip(end) + b);
        assert(text.skip(1) == rest.take(end) + (rest.skip(end) + b));
        assert(text.skip(1).take(end) == rest.take(end));
        assert(text.skip(1).skip(end) == rest.skip(end) + b);
    } else if at_line_comment(a) {
        let rest = a.skip(2);
        let end = line_rest(rest) as int;
        lemma_ends_joined(rest.skip(end), b);
        lemma_line_rest_extends(rest, b);
        assert(text.skip(2) == rest + b);
        assert((rest + b).skip(end) == rest.skip(end) + b);
    } else if at_block_comment(a) {
        let rest = a.skip(2);
        let end = block_rest(rest) as int;
        lemma_block_rest_bound(rest);
        lemma_ends_joined(rest.skip(end), b);
        lemma_block_rest_extends(rest, b);
        assert(text.skip(2) == rest + b);
        assert((rest + b).skip(end) == rest.skip(end) + b);
    } else {
        lemma_ends_joined(a.skip(1), b);
        assert(text.skip(1) == a.skip(1) + b);
        assert(a.len() >= 2 ==> text[1] == a[1]);
    }
}

/// A text that ends between tokens does so without its comments.
pub(crate) proof fn lemma_stripped_ends(s: Seq<char>)
    requires
        ends_between_tokens(s),
    ensures
        ends_between_tokens(stripped(s)),
    decreases s.len(),
{
    let out = stripped(s);
    if s.len() == 0 {
    } else if s[0] == '"' {
        let rest = s.skip(1);
        let end = literal_rest(rest, false) as int;
        lemma_literal_rest_bound(rest, false);
        lemma_stripped_ends(rest.skip(end));
        let literal = seq!['"'] + rest.take(end);
        assert(literal.skip(1) == rest.take(end));
        lemma_literal_is_whole(literal);
        lemma_ends_joined(literal, stripped(rest.skip(end)));
        assert(out == literal + stripped(rest.skip(end)));
    } else if at_line_comment(s) {
        let rest = s.skip(2);
        lemma_line_rest_bound(rest);
        lemma_stripped_ends(rest.skip(line_rest(rest) as int));
    } else if at_block_comment(s) {
        let rest = s.skip(2);
        lemma_block_rest_bound(rest);
        lemma_stripped_ends(rest.skip(block_rest(rest) as int));
    } else {
        lemma_stripped_ends(s.skip(1));
        assert(out.skip(1) == stripped(s.skip(1)));
        if s[0] == '/' {
            assert(s.skip(1)[0] == s[1]);
            assert(stripped(s.skip(1))[0] == s[1]);
            assert(out[1] == s[1]);
        } else {
            assert(out[0] == s[0]);
        }
    }
}

/// A character outside of literals that opens neither a literal nor a comment is
/// kept, and stripping goes on behind it.
pub proof fn law_other_characters_are_kept(c: char, tail: Seq<char>)
    requires
        c != '"',
        c == '/' ==> tail.len() == 0 || (tail[0] != '/' && tail[0] != '*'),
    ensures
        stripped(seq![c] + tail) == seq![c] + stripped(tail),
{
    let text = seq![c] + tail;
    assert(text.skip(1) == tail);
    assert(tail.len() > 0 ==> text[1] == tail[0]);
}

/// Nothing is left of nothing.
pub proof fn law_nothing_is_left_of_nothing()
    ensures
        stripped(Seq::<char>::empty()) == Seq::<char>::empty(),
{
}

/// Whether `s` can stand between the quotes of a string literal: a quote or a
/// backslash stands in it behind a backslash only, which takes one character with
/// it.
pub open spec fn is_between_quotes(s: Seq<char>) -> bool
    decreases s.len(),
{
    if s.len() == 0 {
        true
    } else if s[0] == '\\' {
        s.len() >= 2 && is_between_quotes(s.skip(2))
    } else {
        s[0] != '"' && is_between_quotes(s.skip(1))
    }
}

/// What stands between quotes is closed by the next quote.
proof fn lemma_between_quotes_rest(body: Seq<char>, tail: Seq<char>)
    requires
        is_between_quotes(body),
    ensures
        literal_rest(body + seq!['"'] + tail, false) == body.len() + 1,
        literal_rest(body, false) == body.len(),
        literal_rest(body + seq!['\\'], false) == body.len() + 1,
    decreases body.len(),
{
    reveal_with_fuel(literal_rest, 3);
    let text = body + seq!['"'] + tail;
    let open = body + seq!['\\'];
    if body.len() == 0 {
        assert(text[0] == '"');
        assert(open.skip(1) == Seq::<char>::empty());
    } else if body[0] == '\\' {
        let rest = body.skip(2);
        lemma_between_quotes_rest(rest, tail);
        assert(text.skip(1).skip(1) == rest + seq!['"'] + tail);
        assert(body.skip(1).skip(1) == rest);
        assert(open.skip(1).skip(1) == rest + seq!['\\']);
    } else {
        let rest = body.skip(1);
        lemma_between_quotes_rest(rest, tail);
        assert(text.skip(1) == rest + seq!['"'] + tail);
        assert(open.skip(1) == rest + seq!['\\']);
    }
}

/// What stands between two quotes is kept with them, comment marks and escaped
/// quotes in it too, and stripping goes on behind the closing quote.
pub proof fn law_what_stands_in_quotes_is_kept(body: Seq<char>, tail: Seq<char>)
    requires
        is_between_quotes(body),
    ensures
        stripped(seq!['"'] + body + seq!['"'] + tail) == seq!['"'] + body + seq!['"'] + stripped(
            tail,
        ),
{
    let text = seq!['"'] + body + seq!['"'] + tail;
    let rest = body + seq!['"'] + tail;
    lemma_between_quotes_rest(body, tail);
    assert(text.skip(1) == rest);
    assert(rest.take(body.len() + 1int) == body + seq!['"']);
    assert(rest.skip(body.len() + 1int) == tail);
    assert(seq!['"'] + (body + seq!['"'] + stripped(tail)) == seq!['"'] + body + seq!['"'] + stripped(
        tail,
    ));
}

/// A literal that is never closed is kept to the end of the text, though it ends in
/// a backslash.
pub proof fn law_open_literal_is_kept(body: Seq<char>)
    requires
        is_between_quotes(body),
    ensures
        stripped(seq!['"'] + body) == seq!['"'] + body,
        stripped(seq!['"'] + body + seq!['\\']) == seq!['"'] + body + seq!['\\'],
{
    let nothing = Seq::<char>::empty();
    lemma_between_quotes_rest(body, nothing);
    assert((seq!['"'] + body).skip(1) == body);
    assert(body.take(body.len() as int) == body);
    assert(body.skip(body.len() as int) == nothing);
    assert(stripped(nothing) == nothing);
    assert(seq!['"'] + (body + nothing) == seq!['"'] + body);
    let open = body + seq!['\\'];
    assert((seq!['"'] + body + seq!['\\']).skip(1) == open);
    assert(open.take(body.len() + 1int) == open);
    assert(open.skip(body.len() + 1int) == nothing);
    assert(seq!['"'] + (open + nothing) == seq!['"'] + body + seq!['\\']);
}

/// Whether two characters stand next to each other in `s`.
pub open spec fn stand_together(s: Seq<char>, first: char, second: char) -> bool {
    exists|i: int| 0 <= i < s.len() - 1 && #[trigger] s[i] == first && s[i + 1] == second
}

/// Stripping takes nothing from a text in which no slash stands before a slash or
/// an asterisk.
pub proof fn law_text_without_comment_marks_is_unchanged(s: Seq<char>)
    requires
        !stand_together(s, '/', '/'),
        !stand_together(s, '/', '*'),
    ensures
        stripped(s) == s,
{
    lemma_no_marks_no_comments(s);
    law_comment_free_is_unchanged(s);
}

/// A text without comment marks has no comments.
proof fn lemma_no_marks_no_comments(s: Seq<char>)
    requires
        !stand_together(s, '/', '/'),
        !stand_together(s, '/', '*'),
    ensures
        comment_free(s),
    decreases s.len(),
{
    if s.len() > 0 {
        assert(s.len() >= 2 && s[0] == '/' ==> s[0 + 1int] != '/' && s[0 + 1int] != '*');
        if s[0] == '"' {
            let rest = s.skip(1);
            let end = literal_rest(rest, false) as int;
            lemma_literal_rest_bound(rest, false);
            let tail = rest.skip(end);
            lemma_marks_of_a_tail(s, end + 1);
            assert(tail == s.skip(end + 1));
            lemma_no_marks_no_comments(tail);
        } else {
            lemma_marks_of_a_tail(s, 1);
            lemma_no_marks_no_comments(s.skip(1));
        }
    }
}

/// What does not stand together in a text does not in its end.
proof fn lemma_marks_of_a_tail(s: Seq<char>, from: int)
    requires
        0 <= from <= s.len(),
        !stand_together(s, '/', '/'),
        !stand_together(s, '/', '*'),
    ensures
        !stand_together(s.skip(from), '/', '/'),
        !stand_together(s.skip(from), '/', '*'),
{
    let tail = s.skip(from);
    assert forall|i: int| 0 <= i < tail.len() - 1 && #[trigger] tail[i] == '/' implies tail[i + 1]
        != '/' && tail[i + 1] != '*' by {
        assert(s[from + i] == tail[i]);
        assert(s[from + i + 1] == tail[i + 1]);
    }
}

} // verus!
