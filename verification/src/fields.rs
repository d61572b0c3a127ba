//! Facts about the tokenizer: what the fields of a line look like, and
//! which fields a posting has once it is laid out.

use vstd::prelude::*;
use crate::text::{
    is_ws,
    is_blank,
    trim,
    trim_end,
    lemma_trim_is,
    lemma_trim_bounds,
    lemma_trim_end_fixed,
};
use crate::classify::{
    first_gap,
    field,
    tokens,
    spaces,
    lemma_first_gap_props,
    lemma_first_gap_is,
    lemma_trim_props,
};

verus! {

/// A text in which the character `c` does not occur.
pub open spec fn free_of(s: Seq<char>, c: char) -> bool {
    forall|i: int| 0 <= i < s.len() ==> #[trigger] s[i] != c
}

/// A text without two adjacent spaces.
pub open spec fn gapless(s: Seq<char>) -> bool {
    forall|i: int| 0 <= i && i + 1 < s.len() ==> !(#[trigger] s[i] == ' ' && s[i + 1] == ' ')
}

/// A text that could be a field: not empty, neither beginning nor ending
/// with whitespace, and without two adjacent spaces.
pub open spec fn is_field(s: Seq<char>) -> bool {
    s.len() > 0 && !is_ws(s.first()) && !is_ws(s.last()) && gapless(s)
}

/// Trimming a field changes nothing.
pub proof fn lemma_trim_field(s: Seq<char>)
    requires
        s.len() > 0,
        !is_ws(s.first()),
        !is_ws(s.last()),
    ensures
        trim(s) == s,
{
    lemma_trim_is(s, 0, s.len() as int);
    assert(s.subrange(0, s.len() as int) =~= s);
}

/// What trimming leaves of a text holds no character that the text does
/// not hold, and no two adjacent spaces if the text has none.
pub proof fn lemma_trim_keeps(s: Seq<char>, c: char)
    ensures
        free_of(s, c) ==> free_of(trim(s), c),
        gapless(s) ==> gapless(trim(s)),
{
    let r = lemma_trim_bounds(s);
    let t = trim(s);
    if free_of(s, c) {
        assert forall|i: int| 0 <= i < t.len() implies #[trigger] t[i] != c by {
            assert(t[i] == s[r.0 + i]);
        }
    }
    if gapless(s) {
        assert forall|i: int| 0 <= i && i + 1 < t.len() implies !(#[trigger] t[i] == ' ' && t[i + 1]
            == ' ') by {
            assert(t[i] == s[r.0 + i]);
            assert(t[i + 1] == s[r.0 + i + 1]);
        }
    }
}

/// Every field of a line is a field: trimmed, not empty, without two
/// adjacent spaces.
pub proof fn lemma_tokens_are_fields(s: Seq<char>)
    ensures
        forall|i: int| 0 <= i < tokens(s).len() ==> is_field(#[trigger] tokens(s)[i]),
    decreases s.len(),
{
    let g = first_gap(s);
    lemma_first_gap_props(s);
    if 0 <= g && g + 2 <= s.len() {
        let head = s.take(g);
        let rest = s.skip(g + 2);
        lemma_tokens_are_fields(rest);
        assert(gapless(head)) by {
            assert forall|i: int| 0 <= i && i + 1 < head.len() implies !(#[trigger] head[i] == ' '
                && head[i + 1] == ' ') by {
                assert(head[i] == s[i]);
                assert(head[i + 1] == s[i + 1]);
            }
        }
        lemma_piece_is_field(head);
        let f = field(head);
        assert forall|i: int| 0 <= i < tokens(s).len() implies is_field(#[trigger] tokens(s)[i]) by {
            if i < f.len() {
                assert(tokens(s)[i] == f[i]);
            } else {
                assert(tokens(s)[i] == tokens(rest)[i - f.len()]);
            }
        }
    } else {
        assert(gapless(s)) by {
            assert forall|i: int| 0 <= i && i + 1 < s.len() implies !(#[trigger] s[i] == ' ' && s[i
                + 1] == ' ') by {}
        }
        lemma_piece_is_field(s);
    }
}

/// A field of a line holds no character that the line does not hold.
pub proof fn lemma_token_chars(s: Seq<char>, i: int, c: char)
    requires
        0 <= i < tokens(s).len(),
        free_of(s, c),
    ensures
        free_of(tokens(s)[i], c),
    decreases s.len(),
{
    let g = first_gap(s);
    lemma_first_gap_props(s);
    if 0 <= g && g + 2 <= s.len() {
        let head = s.take(g);
        let rest = s.skip(g + 2);
        let f = field(head);
        if i < f.len() {
            assert(free_of(head, c)) by {
                assert forall|j: int| 0 <= j < head.len() implies #[trigger] head[j] != c by {
                    assert(head[j] == s[j]);
                }
            }
            lemma_trim_keeps(head, c);
            assert(tokens(s)[i] == f[i]);
        } else {
            assert(free_of(rest, c)) by {
                assert forall|j: int| 0 <= j < rest.len() implies #[trigger] rest[j] != c by {
                    assert(rest[j] == s[g + 2 + j]);
                }
            }
            lemma_token_chars(rest, i - f.len(), c);
            assert(tokens(s)[i] == tokens(rest)[i - f.len()]);
        }
    } else {
        lemma_trim_keeps(s, c);
    }
}

/// What a stretch without two adjacent spaces contributes is a field.
pub proof fn lemma_piece_is_field(s: Seq<char>)
    requires
        gapless(s),
    ensures
        forall|i: int| 0 <= i < field(s).len() ==> is_field(#[trigger] field(s)[i]),
{
    lemma_trim_props(s);
    lemma_trim_keeps(s, ' ');
}

/// A field is the only field of itself.
pub proof fn lemma_tokens_of_field(s: Seq<char>)
    requires
        is_field(s),
    ensures
        tokens(s) == seq![s],
{
    lemma_first_gap_is(s, s.len() as int);
    lemma_trim_field(s);
}

/// A field with one space before it is the only field of that text.
pub proof fn lemma_tokens_of_indented(s: Seq<char>)
    requires
        is_field(s),
    ensures
        tokens(seq![' '] + s) == seq![s],
{
    let t = seq![' '] + s;
    assert forall|i: int| 0 <= i && i + 1 < t.len() implies !(#[trigger] t[i] == ' ' && t[i + 1]
        == ' ') by {
        if i == 0 {
            assert(t[1] == s[0]);
        } else {
            assert(t[i] == s[i - 1]);
            assert(t[i + 1] == s[i]);
        }
    }
    lemma_first_gap_is(t, t.len() as int);
    assert(t[t.len() - 1] == s.last());
    assert(t[1] == s.first());
    lemma_trim_is(t, 1, t.len() as int);
    assert(t.subrange(1, t.len() as int) =~= s);
}

/// Two fields with two spaces between them, and one space or none before
/// them, are the two fields of that text.
pub proof fn lemma_tokens_of_pair(lead: Seq<char>, a: Seq<char>, b: Seq<char>)
    requires
        lead.len() == 0 || lead == seq![' '],
        is_field(a),
        is_field(b),
    ensures
        tokens(lead + a + seq![' ', ' '] + b) == seq![a, b],
{
    let t = lead + a + seq![' ', ' '] + b;
    let g = (lead.len() + a.len()) as int;
    assert(t[g] == ' ' && t[g + 1] == ' ');
    assert forall|i: int| 0 <= i < g && i + 1 < t.len() implies !(#[trigger] t[i] == ' ' && t[i + 1]
        == ' ') by {
        if i < lead.len() {
            assert(t[i + 1] == a[0]);
        } else if i + 1 < g {
            assert(t[i] == a[i - lead.len()]);
            assert(t[i + 1] == a[i + 1 - lead.len()]);
        } else {
            assert(t[i] == a.last());
        }
    }
    lemma_first_gap_is(t, g);
    let head = t.take(g);
    assert(head =~= lead + a);
    assert(t.skip(g + 2) =~= b);
    lemma_tokens_of_field(b);
    assert(head[lead.len() as int] == a.first());
    assert(head[g - 1] == a.last());
    lemma_trim_is(head, lead.len() as int, g);
    assert(head.subrange(lead.len() as int, g) =~= a);
    assert(field(head) =~= seq![a]);
    assert(seq![a] + seq![b] =~= seq![a, b]);
}

/// Spaces before a text that does not begin with a space have no part in
/// its fields, but for one of them if their number is odd.
pub proof fn lemma_tokens_skip_spaces(k: nat, s: Seq<char>)
    requires
        s.len() > 0,
        s[0] != ' ',
    ensures
        tokens(spaces(k) + s) == if k % 2 == 0 {
            tokens(s)
        } else {
            tokens(seq![' '] + s)
        },
    decreases k,
{
    if k == 0 {
        assert(spaces(0) + s =~= s);
    } else if k == 1 {
        assert(spaces(1) + s =~= seq![' '] + s);
    } else {
        let t = spaces(k) + s;
        assert(t[0] == ' ' && t[1] == ' ');
        lemma_first_gap_is(t, 0);
        assert(t.take(0) =~= Seq::<char>::empty());
        assert(trim(Seq::<char>::empty()) =~= Seq::<char>::empty());
        assert(field(t.take(0)) =~= Seq::<Seq<char>>::empty());
        assert(t.skip(2) =~= spaces((k - 2) as nat) + s);
        lemma_tokens_skip_spaces((k - 2) as nat, s);
        assert(field(t.take(0)) + tokens(t.skip(2)) =~= tokens(t.skip(2)));
    }
}

/// The fields of a posting as it is laid out: the account, behind two
/// spaces at least, and the amount if there is one.
pub proof fn lemma_tokens_of_posting(k: nat, account: Seq<char>, amount: Seq<char>)
    requires
        k >= 2,
        is_field(account),
        amount.len() == 0 || is_field(amount),
    ensures
        tokens(trim_end(spaces(k) + account + seq![' ', ' '] + amount)) == if amount.len() == 0 {
            seq![account]
        } else {
            seq![account, amount]
        },
{
    let p = spaces(k) + account + seq![' ', ' '] + amount;
    if amount.len() == 0 {
        let head = spaces(k) + account;
        assert(p =~= head + seq![' ', ' ']);
        assert(is_blank(seq![' ', ' ']));
        crate::text::lemma_trim_end_blank(head, seq![' ', ' ']);
        assert(head.last() == account.last());
        lemma_trim_end_fixed(head);
        lemma_tokens_skip_spaces(k, account);
        lemma_tokens_of_field(account);
        lemma_tokens_of_indented(account);
    } else {
        assert(p.last() == amount.last());
        lemma_trim_end_fixed(p);
        let s = account + seq![' ', ' '] + amount;
        assert(p =~= spaces(k) + s);
        assert(s[0] == account[0]);
        lemma_tokens_skip_spaces(k, s);
        lemma_tokens_of_pair(Seq::empty(), account, amount);
        lemma_tokens_of_pair(seq![' '], account, amount);
        assert(Seq::<char>::empty() + account + seq![' ', ' '] + amount =~= s);
        assert(seq![' '] + account + seq![' ', ' '] + amount =~= seq![' '] + s);
    }
}

/// A text whose only field is `t` is `t` between whitespace.
pub proof fn lemma_single_token_trim(s: Seq<char>)
    requires
        tokens(s).len() == 1,
    ensures
        trim(s) == tokens(s)[0],
    decreases s.len(),
{
    let g = first_gap(s);
    lemma_first_gap_props(s);
    if 0 <= g && g + 2 <= s.len() {
        let head = s.take(g);
        let rest = s.skip(g + 2);
        let hb = lemma_trim_bounds(head);
        lemma_trim_props(head);
        if field(head).len() == 1 {
            assert(tokens(rest).len() == 0);
            lemma_no_token_blank(rest);
            assert forall|i: int| g <= i < s.len() implies is_ws(#[trigger] s[i]) by {
                if i >= g + 2 {
                    assert(s[i] == rest[i - g - 2]);
                }
            }
            assert forall|i: int| 0 <= i < hb.0 implies is_ws(#[trigger] s[i]) by {
                assert(s[i] == head[i]);
            }
            assert forall|i: int| hb.1 <= i < s.len() implies is_ws(#[trigger] s[i]) by {
                if i < g {
                    assert(s[i] == head[i]);
                }
            }
            assert(s[hb.0] == head[hb.0]);
            assert(s[hb.1 - 1] == head[hb.1 - 1]);
            lemma_trim_is(s, hb.0, hb.1);
            assert(s.subrange(hb.0, hb.1) =~= head.subrange(hb.0, hb.1));
        } else {
            assert(tokens(s) =~= tokens(rest));
            lemma_single_token_trim(rest);
            crate::classify::lemma_tokens_clean(rest);
            assert(tokens(rest)[0].len() > 0);
            let rb = lemma_trim_bounds(rest);
            lemma_trim_props(rest);
            assert(is_blank(head));
            assert forall|i: int| 0 <= i < g + 2 + rb.0 implies is_ws(#[trigger] s[i]) by {
                if i < g {
                    assert(s[i] == head[i]);
                } else if i >= g + 2 {
                    assert(s[i] == rest[i - g - 2]);
                }
            }
            assert forall|i: int| g + 2 + rb.1 <= i < s.len() implies is_ws(#[trigger] s[i]) by {
                assert(s[i] == rest[i - g - 2]);
            }
            assert(s[g + 2 + rb.0] == rest[rb.0]);
            assert(s[g + 2 + rb.1 - 1] == rest[rb.1 - 1]);
            lemma_trim_is(s, g + 2 + rb.0, g + 2 + rb.1);
            assert(s.subrange(g + 2 + rb.0, g + 2 + rb.1) =~= rest.subrange(rb.0, rb.1));
        }
    } else {
    }
}

/// A text without a field is blank.
pub proof fn lemma_no_token_blank(s: Seq<char>)
    requires
        tokens(s).len() == 0,
    ensures
        is_blank(s),
    decreases s.len(),
{
    let g = first_gap(s);
    lemma_first_gap_props(s);
    if 0 <= g && g + 2 <= s.len() {
        let head = s.take(g);
        let rest = s.skip(g + 2);
        lemma_trim_props(head);
        lemma_no_token_blank(rest);
        assert forall|i: int| 0 <= i < s.len() implies is_ws(#[trigger] s[i]) by {
            if i < g {
                assert(s[i] == head[i]);
            } else if i >= g + 2 {
                assert(s[i] == rest[i - g - 2]);
            }
        }
    } else {
        lemma_trim_props(s);
    }
}

} // verus!
