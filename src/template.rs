//! A small template engine: replaces `<<key>>` placeholders with values.

use vstd::prelude::*;
use vstd::string::{StrSliceExecFns, StringExecFns};

verus! {

/// The first index at or after `i` where `c` appears twice in a row, or the
/// length of `t` when there is none.
pub open spec fn first_double(t: Seq<char>, c: char, i: int) -> int
    decreases t.len() - i,
{
    if i < 0 || i + 1 >= t.len() {
        t.len() as int
    } else if t[i] == c && t[i + 1] == c {
        i
    } else {
        first_double(t, c, i + 1)
    }
}

/// The value of the first placeholder named `key`, if any.
pub open spec fn placeholder_value(placeholders: Seq<(Seq<char>, Seq<char>)>, key: Seq<char>) -> Option<Seq<char>>
    decreases placeholders.len(),
{
    if placeholders.len() == 0 {
        None
    } else if placeholders[0].0 == key {
        Some(placeholders[0].1)
    } else {
        placeholder_value(placeholders.drop_first(), key)
    }
}

/// The placeholders as text pairs.
pub open spec fn placeholders_view(p: Seq<(String, String)>) -> Seq<(Seq<char>, Seq<char>)> {
    p.map_values(|kv: (String, String)| (kv.0@, kv.1@))
}

proof fn lemma_first_double_bounds(t: Seq<char>, c: char, i: int)
    requires
        0 <= i,
    ensures
        i <= first_double(t, c, i) <= t.len() || first_double(t, c, i) == t.len(),
        first_double(t, c, i) <= t.len(),
        first_double(t, c, i) < t.len() ==> first_double(t, c, i) + 1 < t.len(),
    decreases t.len() - i,
{
    if i + 1 < t.len() && !(t[i] == c && t[i + 1] == c) {
        lemma_first_double_bounds(t, c, i + 1);
    }
}

#[via_fn]
proof fn render_from_decreases(t: Seq<char>, placeholders: Seq<(Seq<char>, Seq<char>)>, p: int) {
    if 0 <= p <= t.len() {
        let s = first_double(t, '<', p);
        lemma_first_double_bounds(t, '<', p);
        if s < t.len() {
            lemma_first_double_bounds(t, '>', s + 2);
        }
    }
}

/// The rendering of `t` from index `p` on: text before a `<<` is kept; a
/// `<<key>>` whose key has a value becomes that value, one without stays as
/// written; from a `<<` with no `>>` after it, the text is kept as is.
pub open spec fn render_from(t: Seq<char>, placeholders: Seq<(Seq<char>, Seq<char>)>, p: int) -> Seq<char>
    decreases t.len() - p
    via render_from_decreases
{
    if p < 0 || p > t.len() {
        Seq::empty()
    } else {
        let s = first_double(t, '<', p);
        if s >= t.len() {
            t.subrange(p, t.len() as int)
        } else {
            let e = first_double(t, '>', s + 2);
            if e >= t.len() {
                t.subrange(p, t.len() as int)
            } else {
                let head = match placeholder_value(placeholders, t.subrange(s + 2, e)) {
                    Some(v) => t.subrange(p, s) + v,
                    None => t.subrange(p, e + 2),
                };
                head + render_from(t, placeholders, e + 2)
            }
        }
    }
}

/// The first index at or after `from` where `c` appears twice in a row, or
/// the length when there is none.
fn find_double(text: &str, c: char, from: usize, len: usize) -> (r: usize)
    requires
        len == text@.len(),
        from <= len,
    ensures
        r == first_double(text@, c, from as int),
{
    let mut i = from;
    while i < len && len - i > 1
        invariant
            len == text@.len(),
            from <= i <= len,
            first_double(text@, c, from as int) == first_double(text@, c, i as int),
        decreases len - i,
    {
        if text.get_char(i) == c && text.get_char(i + 1) == c {
            return i;
        }
        i = i + 1;
    }
    i = len;
    i
}

/// Index of the first placeholder named `key`, if any.
fn find_placeholder(placeholders: &[(String, String)], key: &String) -> (r: Option<usize>)
    ensures
        match r {
            Some(i) => i < placeholders@.len() && placeholder_value(placeholders_view(placeholders@), key@)
                == Some(placeholders@[i as int].1@),
            None => placeholder_value(placeholders_view(placeholders@), key@) is None,
        },
{
    let ghost pv = placeholders_view(placeholders@);
    let mut i: usize = 0;
    assert(pv.subrange(0, pv.len() as int) == pv);
    while i < placeholders.len()
        invariant
            pv == placeholders_view(placeholders@),
            i <= placeholders@.len(),
            placeholder_value(pv, key@) == placeholder_value(pv.subrange(i as int, pv.len() as int), key@),
        decreases placeholders@.len() - i,
    {
        let ghost rest = pv.subrange(i as int, pv.len() as int);
        assert(rest.drop_first() =~= pv.subrange(i + 1, pv.len() as int));
        if placeholders[i].0 == *key {
            return Some(i);
        }
        i = i + 1;
    }
    None
}

/// A template engine; it holds no state.
#[derive(Debug)]
pub struct TemplateEngine {}

impl TemplateEngine {
    /// A template engine.
    pub fn new() -> (r: TemplateEngine) {
        TemplateEngine {  }
    }

    /// Replaces each `<<key>>` in `template` with the value of the first
    /// placeholder named `key`; an unknown key is left as written, and text
    /// from a `<<` with no closing `>>` is kept as is.
    pub fn render(&self, template: &str, placeholders: &[(String, String)]) -> (r: String)
        ensures
            r@ == render_from(template@, placeholders_view(placeholders@), 0),
    {
        let ghost t = template@;
        let ghost pv = placeholders_view(placeholders@);
        let len = template.unicode_len();
        let mut output = String::new();
        let mut p: usize = 0;
        loop
            invariant
                t == template@,
                pv == placeholders_view(placeholders@),
                len == t.len(),
                p <= len,
                output@ + render_from(t, pv, p as int) == render_from(t, pv, 0),
            decreases len - p,
        {
            proof {
                lemma_first_double_bounds(t, '<', p as int);
            }
            let start = find_double(template, '<', p, len);
            if start >= len {
                output.append(template.substring_char(p, len));
                assert(output@ == render_from(t, pv, 0));
                return output;
            }
            proof {
                lemma_first_double_bounds(t, '>', start + 2);
            }
            let end = find_double(template, '>', start + 2, len);
            if end >= len {
                output.append(template.substring_char(p, len));
                assert(output@ == render_from(t, pv, 0));
                return output;
            }
            let key = template.substring_char(start + 2, end).to_owned();
            let ghost before = output@;
            match find_placeholder(placeholders, &key) {
                Some(i) => {
                    output.append(template.substring_char(p, start));
                    output.append(placeholders[i].1.as_str());
                },
                None => {
                    output.append(template.substring_char(p, end + 2));
                },
            }
            assert(output@ + render_from(t, pv, end + 2) =~= before + render_from(t, pv, p as int));
            p = end + 2;
        }
    }
}

} // verus!
