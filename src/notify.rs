//! The text of a new-listing notification, and reading the watch link back
//! out of it.
use vstd::prelude::*;
use crate::engine::Listing;
use crate::text::{chars_of, decimal, push_chars, push_decimal, slice_chars, string_of};

verus! {

/// Position of the last `c` in `s`.
pub open spec fn last_index(s: Seq<char>, c: char) -> Option<int>
    decreases s.len(),
{
    if s.len() == 0 {
        None
    } else if s.last() == c {
        Some(s.len() - 1)
    } else {
        last_index(s.drop_last(), c)
    }
}

/// The notification body: a link to the listing, then a link to the search.
pub open spec fn description_text(title: Seq<char>, url: Seq<char>, watch_url: Seq<char>) -> Seq<char> {
    seq!['['] + title + seq![']', '('] + url + seq![')', '\n', '['] + "Hakulinkki"@ + seq![']', '(']
        + watch_url + seq![')']
}

/// The link in the last pair of parentheses of a notification body.
pub open spec fn watch_link_of(d: Seq<char>) -> Option<Seq<char>> {
    match (last_index(d, '('), last_index(d, ')')) {
        (Some(a), Some(b)) => if a < b { Some(d.subrange(a + 1, b)) } else { None },
        _ => None,
    }
}

/// An integer written in decimal, with a leading `-` when negative.
pub open spec fn int_text(n: int) -> Seq<char> {
    if n < 0 { seq!['-'] + decimal((-n) as nat) } else { decimal(n as nat) }
}

/// The price as shown in a notification.
pub open spec fn price_label(price: int) -> Seq<char> {
    int_text(price) + seq![' ', '€']
}

/// Position of the last `c` in `s`.
pub fn find_last(s: &Vec<char>, c: char) -> (r: Option<usize>)
    ensures
        match r {
            Some(i) => last_index(s@, c) == Some(i as int),
            None => last_index(s@, c) is None,
        },
{
    let mut found: Option<usize> = None;
    let mut i: usize = 0;
    while i < s.len()
        invariant
            i <= s@.len(),
            match found {
                Some(j) => last_index(s@.subrange(0, i as int), c) == Some(j as int),
                None => last_index(s@.subrange(0, i as int), c) is None,
            },
        decreases s@.len() - i,
    {
        assert(s@.subrange(0, i + 1).drop_last() =~= s@.subrange(0, i as int));
        if s[i] == c {
            found = Some(i);
        }
        i = i + 1;
    }
    assert(s@.subrange(0, s@.len() as int) =~= s@);
    found
}

/// The notification body for `item`, found by the watch on `watch_url`.
pub fn embed_description(item: &Listing, watch_url: &str) -> (r: String)
    ensures
        r@ == description_text(item.title@, item.url@, watch_url@),
{
    let mut out: Vec<char> = Vec::new();
    out.push('[');
    push_chars(&mut out, &chars_of(item.title.as_str()));
    out.push(']');
    out.push('(');
    push_chars(&mut out, &chars_of(item.url.as_str()));
    out.push(')');
    out.push('\n');
    out.push('[');
    push_chars(&mut out, &chars_of("Hakulinkki"));
    out.push(']');
    out.push('(');
    push_chars(&mut out, &chars_of(watch_url));
    out.push(')');
    assert(out@ =~= description_text(item.title@, item.url@, watch_url@));
    string_of(&out)
}

/// The watch link of a notification body: the text in its last pair of
/// parentheses, or `None` when it has no such pair.
pub fn watch_url_from_description(desc: &str) -> (r: Option<String>)
    ensures
        match r {
            Some(u) => watch_link_of(desc@) == Some(u@),
            None => watch_link_of(desc@) is None,
        },
{
    let cs = chars_of(desc);
    proof {
        lemma_last_index_bounds(cs@, '(');
        lemma_last_index_bounds(cs@, ')');
    }
    match (find_last(&cs, '('), find_last(&cs, ')')) {
        (Some(a), Some(b)) => {
            if a < b {
                Some(string_of(&slice_chars(&cs, a + 1, b)))
            } else {
                None
            }
        },
        _ => None,
    }
}

/// The price as shown in a notification: the amount and the euro sign.
pub fn price_text(price: i64) -> (r: String)
    ensures
        r@ == price_label(price as int),
{
    let mut out: Vec<char> = Vec::new();
    if price < 0 {
        out.push('-');
        push_decimal(&mut out, (0i128 - price as i128) as u64);
    } else {
        push_decimal(&mut out, price as u64);
    }
    out.push(' ');
    out.push('€');
    assert(out@ =~= price_label(price as int));
    string_of(&out)
}

proof fn lemma_last_index_bounds(s: Seq<char>, c: char)
    ensures
        last_index(s, c) matches Some(i) ==> 0 <= i < s.len() && s[i] == c,
    decreases s.len(),
{
    if s.len() > 0 && s.last() != c {
        lemma_last_index_bounds(s.drop_last(), c);
    }
}

proof fn lemma_last_index_of_tail(x: Seq<char>, c: char, y: Seq<char>)
    requires
        forall|j: int| 0 <= j < y.len() ==> y[j] != c,
    ensures
        last_index(x.push(c) + y, c) == Some(x.len() as int),
    decreases y.len(),
{
    if y.len() == 0 {
        assert(x.push(c) + y =~= x.push(c));
    } else {
        lemma_last_index_of_tail(x, c, y.drop_last());
        assert((x.push(c) + y).drop_last() =~= x.push(c) + y.drop_last());
    }
}

/// The watch link written into a notification body is read back unchanged,
/// when it holds no parenthesis.
pub proof fn lemma_watch_link_round_trip(title: Seq<char>, url: Seq<char>, watch_url: Seq<char>)
    requires
        forall|j: int| 0 <= j < watch_url.len() ==> watch_url[j] != '(' && watch_url[j] != ')',
    ensures
        watch_link_of(description_text(title, url, watch_url)) == Some(watch_url),
{
    let d = description_text(title, url, watch_url);
    let head = seq!['['] + title + seq![']', '('] + url + seq![')', '\n', '['] + "Hakulinkki"@
        + seq![']'];
    let tail = watch_url + seq![')'];
    assert(d =~= head.push('(') + tail);
    lemma_last_index_of_tail(head, '(', tail);
    assert(d =~= (head.push('(') + watch_url).push(')') + Seq::<char>::empty());
    lemma_last_index_of_tail(head.push('(') + watch_url, ')', Seq::<char>::empty());
    assert(d.subrange(head.len() as int + 1, d.len() as int - 1) =~= watch_url);
}

} // verus!
