//! Names derived from the name of the user's struct.

use vstd::prelude::*;
use crate::text::{char_at, char_len, from_str, push_char, push_str};

verus! {

pub open spec fn is_ascii_upper(c: char) -> bool {
    'A' <= c && c <= 'Z'
}

/// The lowercase form of an ASCII uppercase letter.
pub open spec fn ascii_lower(c: char) -> char {
    ((c as u32) + 32) as char
}

/// What one character of the input becomes: an uppercase ASCII letter turns
/// into `_` and its lowercase form (no `_` at the very start), anything else
/// stays as it is.
pub open spec fn snake_piece(c: char, first: bool) -> Seq<char> {
    if is_ascii_upper(c) {
        if first {
            seq![ascii_lower(c)]
        } else {
            seq!['_', ascii_lower(c)]
        }
    } else {
        seq![c]
    }
}

/// The snake case form of `s`.
pub open spec fn snake_case(s: Seq<char>) -> Seq<char>
    decreases s.len(),
{
    if s.len() == 0 {
        Seq::empty()
    } else {
        snake_case(s.drop_last()) + snake_piece(s.last(), s.len() == 1)
    }
}

pub open spec fn has_no_ascii_upper(s: Seq<char>) -> bool {
    forall|i: int| 0 <= i < s.len() ==> !is_ascii_upper(#[trigger] s[i])
}

fn lower_char(c: char) -> (r: char)
    requires
        is_ascii_upper(c),
    ensures
        r == ascii_lower(c),
{
    let b: u8 = c as u8;
    assert((c as u32) == (b as u32));
    let l: u8 = b + 32;
    l as char
}

/// Converts `CamelCase` to `camel_case`: every ASCII uppercase letter becomes
/// its lowercase form, preceded by `_` unless it is the first character.
pub fn to_snake_case(s: &str) -> (r: String)
    ensures
        r@ == snake_case(s@),
{
    let n = char_len(s);
    let mut snake = String::new();
    let mut i: usize = 0;
    while i < n
        invariant
            n == s@.len(),
            i <= n,
            snake@ == snake_case(s@.take(i as int)),
        decreases n - i,
    {
        let c = char_at(s, i);
        assert(s@.take(i + 1).drop_last() =~= s@.take(i as int));
        if 'A' <= c && c <= 'Z' {
            if i != 0 {
                push_char(&mut snake, '_');
            }
            push_char(&mut snake, lower_char(c));
        } else {
            push_char(&mut snake, c);
        }
        assert(snake@ =~= snake_case(s@.take(i + 1)));
        i = i + 1;
    }
    assert(s@.take(n as int) =~= s@);
    snake
}

proof fn lemma_snake_no_upper(s: Seq<char>)
    ensures
        has_no_ascii_upper(snake_case(s)),
    decreases s.len(),
{
    if s.len() > 0 {
        lemma_snake_no_upper(s.drop_last());
        let a = snake_case(s.drop_last());
        let p = snake_piece(s.last(), s.len() == 1);
        assert forall|i: int| 0 <= i < (a + p).len() implies !is_ascii_upper(#[trigger] (a + p)[i]) by {
            if i >= a.len() {
                assert(p[i - a.len()] == (a + p)[i]);
            }
        }
    }
}

proof fn lemma_snake_identity(s: Seq<char>)
    requires
        has_no_ascii_upper(s),
    ensures
        snake_case(s) == s,
    decreases s.len(),
{
    if s.len() > 0 {
        assert(has_no_ascii_upper(s.drop_last())) by {
            assert forall|i: int| 0 <= i < s.drop_last().len() implies !is_ascii_upper(#[trigger] s.drop_last()[i]) by {
                assert(s.drop_last()[i] == s[i]);
            }
        }
        lemma_snake_identity(s.drop_last());
        assert(!is_ascii_upper(s[s.len() - 1]));
        assert(s =~= s.drop_last() + seq![s.last()]);
    }
}

/// Snake case is idempotent, and its result holds no ASCII uppercase letter.
pub proof fn law_snake_case_idempotent(s: Seq<char>)
    ensures
        has_no_ascii_upper(snake_case(s)),
        snake_case(snake_case(s)) == snake_case(s),
{
    lemma_snake_no_upper(s);
    lemma_snake_identity(snake_case(s));
}

/// The names generated for a UI struct named `base`.
pub struct BaseNames {
    /// `<snake>_ui`, the module of a full UI.
    pub module: String,
    /// `partial_<snake>_ui`, the module of a partial UI.
    pub partial_module: String,
    /// The struct's own name.
    pub struct_name: String,
    /// `<base>Ui`, the generated UI wrapper.
    pub struct_ui: String,
}

/// Computes the generated module and struct names of the struct `base`.
pub fn parse_base_names(base: &str) -> (r: BaseNames)
    ensures
        r.module@ == snake_case(base@) + "_ui"@,
        r.partial_module@ == "partial_"@ + snake_case(base@) + "_ui"@,
        r.struct_name@ == base@,
        r.struct_ui@ == base@ + "Ui"@,
{
    let snake = to_snake_case(base);
    let mut module = snake.clone();
    push_str(&mut module, "_ui");
    let mut partial_module = from_str("partial_");
    push_str(&mut partial_module, snake.as_str());
    push_str(&mut partial_module, "_ui");
    let mut struct_ui = from_str(base);
    push_str(&mut struct_ui, "Ui");
    BaseNames { module, partial_module, struct_name: from_str(base), struct_ui }
}

} // verus!
