use vstd::prelude::*;
use crate::chars::{spec_is_alpha, spec_is_alphanumeric, spec_is_digit};
use crate::lexer::{
    Kind, TokenModel, alnum_run, digit_run, false_word,
    lex_from, opt_seq, prepend, scan_step, text_run, true_word, word_kind,
};
use crate::roundtrip::{concat_all, is_word, item_toks, lemma_concat_split, member_toks, portable, toks};
use crate::value::ValueModel;
use crate::writer::{
    WriteError, join_lines, member, pad, render, render_items, render_members,
};

verus! {

/// The categories of a sequence of tokens.
pub open spec fn kinds_of(ts: Seq<TokenModel>) -> Seq<Kind> {
    ts.map_values(|t: TokenModel| t.kind)
}

/// Scanning `s` from `i` with line counter `line` yields tokens of the
/// categories `ks` and then goes on at `j`.
pub open spec fn scans_to(s: Seq<char>, i: int, line: nat, ks: Seq<Kind>, j: int) -> bool {
    exists|ts: Seq<TokenModel>, l2: nat|
        #![trigger kinds_of(ts), lex_from(s, j, l2)]
        kinds_of(ts) == ks && lex_from(s, i, line) == prepend(ts, lex_from(s, j, l2))
}

/// `scans_to` whatever the line counter.
#[verifier::opaque]
pub open spec fn scans_all(s: Seq<char>, i: int, ks: Seq<Kind>, j: int) -> bool {
    forall|l: nat| #[trigger] scans_to(s, i, l, ks, j)
}

/// The text `w` stands in `s` at position `i`.
pub open spec fn at(s: Seq<char>, i: int, w: Seq<char>) -> bool {
    0 <= i && i + w.len() <= s.len() && s.subrange(i, i + w.len()) == w
}

/// Position `e` ends a word or number: the text ends there or a character
/// that continues neither follows.
pub open spec fn ends_ok(s: Seq<char>, e: int) -> bool {
    e == s.len() || !spec_is_alphanumeric(s[e])
}

proof fn lemma_at_split(s: Seq<char>, i: int, a: Seq<char>, b: Seq<char>)
    requires
        at(s, i, a + b),
    ensures
        at(s, i, a),
        at(s, i + a.len(), b),
{
    assert(s.subrange(i, i + a.len()) =~= (a + b).subrange(0, a.len() as int));
    assert((a + b).subrange(0, a.len() as int) =~= a);
    assert(s.subrange(i + a.len(), i + a.len() + b.len()) =~= (a + b).subrange(a.len() as int, (a + b).len() as int));
    assert((a + b).subrange(a.len() as int, (a + b).len() as int) =~= b);
}

proof fn lemma_at_index(s: Seq<char>, i: int, w: Seq<char>, j: int)
    requires
        at(s, i, w),
        0 <= j < w.len(),
    ensures
        s[i + j] == w[j],
{
    assert(s.subrange(i, i + w.len())[j] == s[i + j]);
}

proof fn lemma_step(s: Seq<char>, i: int, line: nat)
    requires
        0 <= i < s.len(),
        scan_step(s, i, line) is Ok,
        i < scan_step(s, i, line)->Ok_0.1 <= s.len(),
    ensures
        scans_to(s, i, line, kinds_of(opt_seq(scan_step(s, i, line)->Ok_0.0)), scan_step(s, i, line)->Ok_0.1),
{
    let (t, j, l) = scan_step(s, i, line)->Ok_0;
    let ts = opt_seq(t);
    assert(lex_from(s, i, line) == prepend(ts, lex_from(s, j, l)));
    assert(kinds_of(ts) == kinds_of(ts) && lex_from(s, i, line) == prepend(ts, lex_from(s, j, l)));
}

proof fn lemma_chain(s: Seq<char>, i: int, ks1: Seq<Kind>, j: int, ks2: Seq<Kind>, k: int)
    requires
        scans_all(s, i, ks1, j),
        scans_all(s, j, ks2, k),
    ensures
        scans_all(s, i, ks1 + ks2, k),
{
    reveal(scans_all);
    assert forall|line: nat| #[trigger] scans_to(s, i, line, ks1 + ks2, k) by {
        assert(scans_to(s, i, line, ks1, j));
        let (ts1, l2) = choose|ts1: Seq<TokenModel>, l2: nat|
            #![trigger kinds_of(ts1), lex_from(s, j, l2)]
            kinds_of(ts1) == ks1 && lex_from(s, i, line) == prepend(ts1, lex_from(s, j, l2));
        assert(scans_to(s, j, l2, ks2, k));
        let (ts2, l3) = choose|ts2: Seq<TokenModel>, l3: nat|
            #![trigger kinds_of(ts2), lex_from(s, k, l3)]
            kinds_of(ts2) == ks2 && lex_from(s, j, l2) == prepend(ts2, lex_from(s, k, l3));
        match lex_from(s, k, l3) {
            Ok(x) => {
                assert(ts1 + (ts2 + x) =~= (ts1 + ts2) + x);
            },
            Err(_) => {},
        }
        assert(kinds_of(ts1 + ts2) =~= ks1 + ks2);
        assert(kinds_of(ts1 + ts2) == ks1 + ks2 && lex_from(s, i, line) == prepend(ts1 + ts2, lex_from(s, k, l3)));
    }
}

/// The categories that one structural or blank character scans to.
pub open spec fn char_kinds(c: char) -> Seq<Kind> {
    if c == '@' {
        seq![Kind::At]
    } else if c == '=' {
        seq![Kind::Equal]
    } else if c == '{' {
        seq![Kind::LeftBrace]
    } else if c == '}' {
        seq![Kind::RightBrace]
    } else if c == '(' {
        seq![Kind::LeftParen]
    } else if c == ')' {
        seq![Kind::RightParen]
    } else {
        Seq::empty()
    }
}

proof fn lemma_one(s: Seq<char>, i: int)
    requires
        0 <= i < s.len(),
        s[i] == ' ' || s[i] == '\n' || s[i] == '@' || s[i] == '=' || s[i] == '{' || s[i] == '}' || s[i] == '('
            || s[i] == ')',
    ensures
        scans_all(s, i, char_kinds(s[i]), i + 1),
{
    reveal(scans_all);
    assert forall|line: nat| #[trigger] scans_to(s, i, line, char_kinds(s[i]), i + 1) by {
        lemma_step(s, i, line);
        let t = scan_step(s, i, line)->Ok_0.0;
        assert(kinds_of(opt_seq(t)) =~= char_kinds(s[i]));
    }
}

proof fn lemma_spaces(s: Seq<char>, i: int, n: nat)
    requires
        at(s, i, pad(n)),
    ensures
        scans_all(s, i, Seq::empty(), i + n),
    decreases n,
{
    reveal(scans_all);
    if n == 0 {
        assert forall|line: nat| #[trigger] scans_to(s, i, line, Seq::empty(), i + n) by {
            let ts = Seq::<TokenModel>::empty();
            match lex_from(s, i, line) {
                Ok(x) => {
                    assert(ts + x =~= x);
                },
                Err(_) => {},
            }
            assert(kinds_of(ts) =~= Seq::<Kind>::empty());
            assert(kinds_of(ts) == Seq::<Kind>::empty() && lex_from(s, i, line) == prepend(ts, lex_from(s, i, line)));
        }
    } else {
        assert(pad(n) =~= pad((n - 1) as nat) + seq![' ']);
        lemma_at_split(s, i, pad((n - 1) as nat), seq![' ']);
        lemma_spaces(s, i, (n - 1) as nat);
        lemma_at_index(s, i + n - 1, seq![' '], 0);
        lemma_one(s, i + n - 1);
        assert(char_kinds(' ') =~= Seq::<Kind>::empty());
        lemma_chain(s, i, Seq::empty(), i + n - 1, Seq::empty(), i + n);
        assert(Seq::<Kind>::empty() + Seq::<Kind>::empty() =~= Seq::<Kind>::empty());
    }
}

proof fn lemma_alnum_run(s: Seq<char>, k: int, n: nat)
    requires
        0 <= k,
        k + n <= s.len(),
        forall|j: int| k <= j < k + n ==> spec_is_alphanumeric(#[trigger] s[j]),
        ends_ok(s, k + n),
    ensures
        alnum_run(s, k) == n,
    decreases n,
{
    if n > 0 {
        lemma_alnum_run(s, k + 1, (n - 1) as nat);
    }
}

proof fn lemma_digit_run(s: Seq<char>, k: int, n: nat)
    requires
        0 <= k,
        k + n <= s.len(),
        forall|j: int| k <= j < k + n ==> spec_is_digit(#[trigger] s[j]),
        ends_ok(s, k + n),
    ensures
        digit_run(s, k) == n,
    decreases n,
{
    if n > 0 {
        lemma_digit_run(s, k + 1, (n - 1) as nat);
    }
}

proof fn lemma_text_run(s: Seq<char>, k: int, n: nat)
    requires
        0 <= k,
        k + n < s.len(),
        forall|j: int| k <= j < k + n ==> #[trigger] s[j] != '"',
        s[k + n] == '"',
    ensures
        text_run(s, k) == n,
    decreases n,
{
    if n > 0 {
        lemma_text_run(s, k + 1, (n - 1) as nat);
    }
}

/// A word: an identifier start, identifier characters, then a delimiter.
proof fn lemma_word(s: Seq<char>, i: int, w: Seq<char>)
    requires
        at(s, i, w),
        w.len() > 0,
        spec_is_alpha(w[0]),
        forall|j: int| 1 <= j < w.len() ==> spec_is_alphanumeric(#[trigger] w[j]),
        ends_ok(s, i + w.len()),
    ensures
        scans_all(s, i, seq![word_kind(w)], i + w.len()),
{
    reveal(scans_all);
    assert forall|j: int| i + 1 <= j < i + 1 + (w.len() - 1) implies spec_is_alphanumeric(#[trigger] s[j]) by {
        lemma_at_index(s, i, w, j - i);
    }
    lemma_alnum_run(s, i + 1, (w.len() - 1) as nat);
    lemma_at_index(s, i, w, 0);
    assert forall|line: nat| #[trigger] scans_to(s, i, line, seq![word_kind(w)], i + w.len()) by {
        lemma_step(s, i, line);
        let t = scan_step(s, i, line)->Ok_0.0;
        assert(kinds_of(opt_seq(t)) =~= seq![word_kind(w)]);
    }
}

proof fn lemma_number(s: Seq<char>, i: int, w: Seq<char>)
    requires
        at(s, i, w),
        w.len() > 0,
        forall|j: int| 0 <= j < w.len() ==> spec_is_digit(#[trigger] w[j]),
        ends_ok(s, i + w.len()),
    ensures
        scans_all(s, i, seq![Kind::Num(w)], i + w.len()),
{
    reveal(scans_all);
    assert forall|j: int| i + 1 <= j < i + 1 + (w.len() - 1) implies spec_is_digit(#[trigger] s[j]) by {
        lemma_at_index(s, i, w, j - i);
    }
    lemma_at_index(s, i, w, 0);
    assert(ends_ok(s, i + 1 + (w.len() - 1)));
    assert(i + w.len() == s.len() || !spec_is_digit(s[i + w.len()]));
    lemma_digit_run(s, i + 1, (w.len() - 1) as nat);
    assert(s.subrange(i, i + w.len()) == w);
    assert forall|line: nat| #[trigger] scans_to(s, i, line, seq![Kind::Num(w)], i + w.len()) by {
        lemma_step(s, i, line);
        let t = scan_step(s, i, line)->Ok_0.0;
        assert(kinds_of(opt_seq(t)) =~= seq![Kind::Num(w)]);
    }
}

proof fn lemma_string(s: Seq<char>, i: int, w: Seq<char>)
    requires
        at(s, i, seq!['"'] + w + seq!['"']),
        forall|j: int| 0 <= j < w.len() ==> #[trigger] w[j] != '"',
    ensures
        scans_all(s, i, seq![Kind::Str(w)], i + w.len() + 2),
{
    reveal(scans_all);
    let full = seq!['"'] + w + seq!['"'];
    lemma_at_index(s, i, full, 0);
    lemma_at_index(s, i, full, w.len() + 1int);
    assert forall|j: int| i + 1 <= j < i + 1 + w.len() implies #[trigger] s[j] != '"' by {
        lemma_at_index(s, i, full, j - i);
    }
    lemma_text_run(s, i + 1, w.len());
    assert(s.subrange(i + 1, i + 1 + w.len()) =~= w) by {
        assert forall|j: int| 0 <= j < w.len() implies s.subrange(i + 1, i + 1 + w.len())[j] == w[j] by {
            lemma_at_index(s, i, full, j + 1);
        }
    }
    assert forall|line: nat| #[trigger] scans_to(s, i, line, seq![Kind::Str(w)], i + w.len() + 2) by {
        lemma_step(s, i, line);
        let t = scan_step(s, i, line)->Ok_0.0;
        assert(kinds_of(opt_seq(t)) =~= seq![Kind::Str(w)]);
    }
}


proof fn lemma_at_prefix(s: Seq<char>, i: int, w: Seq<char>, n: int)
    requires
        at(s, i, w),
        0 <= n <= w.len(),
    ensures
        at(s, i, w.subrange(0, n)),
{
    assert(s.subrange(i, i + n) =~= w.subrange(0, n)) by {
        assert forall|j: int| 0 <= j < n implies s.subrange(i, i + n)[j] == w.subrange(0, n)[j] by {
            lemma_at_index(s, i, w, j);
        }
    }
}

proof fn lemma_join_prefix(parts: Seq<Result<Seq<char>, WriteError>>, ind: nat, k: int)
    requires
        join_lines(parts, ind) is Ok,
        0 <= k <= parts.len(),
    ensures
        join_lines(parts.take(k), ind) is Ok,
        join_lines(parts.take(k), ind)->Ok_0.len() <= join_lines(parts, ind)->Ok_0.len(),
        join_lines(parts, ind)->Ok_0.subrange(0, join_lines(parts.take(k), ind)->Ok_0.len() as int)
            == join_lines(parts.take(k), ind)->Ok_0,
        k < parts.len() ==> parts[k] is Ok,
    decreases parts.len(),
{
    if k == parts.len() {
        assert(parts.take(k) =~= parts);
        let j = join_lines(parts, ind)->Ok_0;
        assert(j.subrange(0, j.len() as int) =~= j);
    } else {
        let d = parts.drop_last();
        lemma_join_prefix(d, ind, k);
        assert(d.take(k) =~= parts.take(k));
        let jd = join_lines(d, ind)->Ok_0;
        let jk = join_lines(parts.take(k), ind)->Ok_0;
        let j = join_lines(parts, ind)->Ok_0;
        assert(j == jd + pad(ind) + parts.last()->Ok_0 + seq!['\n']);
        assert(jk.len() <= jd.len());
        assert(j.subrange(0, jk.len() as int) =~= jd.subrange(0, jk.len() as int));
        if k < d.len() {
            assert(d[k] == parts[k]);
        }
    }
}

proof fn lemma_nothing(s: Seq<char>, i: int)
    requires
        0 <= i <= s.len(),
    ensures
        scans_all(s, i, Seq::empty(), i),
{
    assert(pad(0) =~= Seq::<char>::empty());
    assert(s.subrange(i, i) =~= Seq::<char>::empty());
    lemma_spaces(s, i, 0);
}

proof fn lemma_items(s: Seq<char>, i0: int, a: Seq<ValueModel>, ind: nat, k: int)
    requires
        forall|j: int| 0 <= j < a.len() ==> portable(#[trigger] a[j]),
        join_lines(render_items(a, ind), ind) is Ok,
        at(s, i0, join_lines(render_items(a, ind), ind)->Ok_0),
        0 <= k <= a.len(),
    ensures
        join_lines(render_items(a, ind).take(k), ind) is Ok,
        scans_all(
            s,
            i0,
            concat_all(item_toks(a).take(k)),
            i0 + join_lines(render_items(a, ind).take(k), ind)->Ok_0.len(),
        ),
    decreases a, k,
{
    let parts = render_items(a, ind);
    let whole = join_lines(parts, ind)->Ok_0;
    lemma_join_prefix(parts, ind, k);
    let jk = join_lines(parts.take(k), ind)->Ok_0;
    lemma_at_prefix(s, i0, whole, jk.len() as int);
    if k == 0 {
        assert(parts.take(0) =~= Seq::<Result<Seq<char>, WriteError>>::empty());
        assert(item_toks(a).take(0) =~= Seq::<Seq<Kind>>::empty());
        lemma_nothing(s, i0);
    } else {
        lemma_items(s, i0, a, ind, k - 1);
        lemma_join_prefix(parts, ind, k - 1);
        let jp = join_lines(parts.take(k - 1), ind)->Ok_0;
        assert(parts.take(k).drop_last() =~= parts.take(k - 1));
        assert(parts.take(k).last() == parts[k - 1]);
        assert(parts[k - 1] == render(a[k - 1], ind));
        let item = render(a[k - 1], ind)->Ok_0;
        assert(jk == jp + pad(ind) + item + seq!['\n']);
        assert(jk =~= jp + (pad(ind) + (item + seq!['\n'])));
        lemma_at_split(s, i0, jp, pad(ind) + (item + seq!['\n']));
        let p1 = i0 + jp.len();
        lemma_at_split(s, p1, pad(ind), item + seq!['\n']);
        let p2 = p1 + ind;
        lemma_at_split(s, p2, item, seq!['\n']);
        let p3 = p2 + item.len();
        lemma_at_index(s, p3, seq!['\n'], 0);
        lemma_spaces(s, p1, ind);
        assert(decreases_to!(a => a[k - 1]));
        lemma_render(s, p2, a[k - 1], ind);
        lemma_one(s, p3);
        assert(char_kinds('\n') =~= Seq::<Kind>::empty());
        let c0 = concat_all(item_toks(a).take(k - 1));
        let e = Seq::<Kind>::empty();
        lemma_chain(s, i0, c0, p1, e, p2);
        lemma_chain(s, i0, c0 + e, p2, toks(a[k - 1]), p3);
        lemma_chain(s, i0, c0 + e + toks(a[k - 1]), p3, e, p3 + 1);
        lemma_concat_split(item_toks(a), k - 1);
        assert(item_toks(a)[k - 1] == toks(a[k - 1]));
        assert(c0 + e + toks(a[k - 1]) + e =~= concat_all(item_toks(a).take(k)));
    }
}

proof fn lemma_members(s: Seq<char>, i0: int, o: Seq<(Seq<char>, ValueModel)>, ind: nat, k: int)
    requires
        forall|j: int| 0 <= j < o.len() ==> portable(#[trigger] o[j].1),
        forall|j: int| 0 <= j < o.len() ==> is_word(#[trigger] o[j].0),
        join_lines(render_members(o, ind), ind) is Ok,
        at(s, i0, join_lines(render_members(o, ind), ind)->Ok_0),
        0 <= k <= o.len(),
    ensures
        join_lines(render_members(o, ind).take(k), ind) is Ok,
        scans_all(
            s,
            i0,
            concat_all(member_toks(o).take(k)),
            i0 + join_lines(render_members(o, ind).take(k), ind)->Ok_0.len(),
        ),
    decreases o, k,
{
    let parts = render_members(o, ind);
    let whole = join_lines(parts, ind)->Ok_0;
    lemma_join_prefix(parts, ind, k);
    let jk = join_lines(parts.take(k), ind)->Ok_0;
    lemma_at_prefix(s, i0, whole, jk.len() as int);
    if k == 0 {
        assert(parts.take(0) =~= Seq::<Result<Seq<char>, WriteError>>::empty());
        assert(member_toks(o).take(0) =~= Seq::<Seq<Kind>>::empty());
        lemma_nothing(s, i0);
    } else {
        lemma_members(s, i0, o, ind, k - 1);
        lemma_join_prefix(parts, ind, k - 1);
        let jp = join_lines(parts.take(k - 1), ind)->Ok_0;
        assert(parts.take(k).drop_last() =~= parts.take(k - 1));
        assert(parts.take(k).last() == parts[k - 1]);
        let key = o[k - 1].0;
        let val = o[k - 1].1;
        assert(parts[k - 1] == member(key, render(val, ind)));
        let item = render(val, ind)->Ok_0;
        let eq = seq![' ', '=', ' '];
        assert(jk == jp + pad(ind) + (key + eq + item) + seq!['\n']);
        assert(jk =~= jp + (pad(ind) + (key + (eq + (item + seq!['\n'])))));
        lemma_at_split(s, i0, jp, pad(ind) + (key + (eq + (item + seq!['\n']))));
        let p1 = i0 + jp.len();
        lemma_at_split(s, p1, pad(ind), key + (eq + (item + seq!['\n'])));
        let p2 = p1 + ind;
        lemma_at_split(s, p2, key, eq + (item + seq!['\n']));
        let p3 = p2 + key.len();
        lemma_at_split(s, p3, eq, item + seq!['\n']);
        let p4 = p3 + 3;
        lemma_at_split(s, p4, item, seq!['\n']);
        let p5 = p4 + item.len();
        lemma_at_index(s, p5, seq!['\n'], 0);
        lemma_at_index(s, p3, eq, 0);
        lemma_at_index(s, p3, eq, 1);
        lemma_at_index(s, p3, eq, 2);
        lemma_spaces(s, p1, ind);
        assert(is_word(key));
        lemma_word(s, p2, key);
        assert(word_kind(key) == Kind::Ident(key));
        lemma_one(s, p3);
        lemma_one(s, p3 + 1);
        lemma_one(s, p3 + 2);
        assert(decreases_to!(o => o[k - 1]));
        assert(decreases_to!(o[k - 1] => o[k - 1].1));
        lemma_render(s, p4, val, ind);
        lemma_one(s, p5);
        let e = Seq::<Kind>::empty();
        assert(char_kinds(' ') =~= e);
        assert(char_kinds('\n') =~= e);
        assert(char_kinds('=') =~= seq![Kind::Equal]);
        let c0 = concat_all(member_toks(o).take(k - 1));
        lemma_chain(s, i0, c0, p1, e, p2);
        lemma_chain(s, i0, c0 + e, p2, seq![Kind::Ident(key)], p3);
        lemma_chain(s, i0, c0 + e + seq![Kind::Ident(key)], p3, e, p3 + 1);
        lemma_chain(s, i0, c0 + e + seq![Kind::Ident(key)] + e, p3 + 1, seq![Kind::Equal], p3 + 2);
        lemma_chain(s, i0, c0 + e + seq![Kind::Ident(key)] + e + seq![Kind::Equal], p3 + 2, e, p4);
        lemma_chain(s, i0, c0 + e + seq![Kind::Ident(key)] + e + seq![Kind::Equal] + e, p4, toks(val), p5);
        lemma_chain(s, i0, c0 + e + seq![Kind::Ident(key)] + e + seq![Kind::Equal] + e + toks(val), p5, e, p5 + 1);
        lemma_concat_split(member_toks(o), k - 1);
        assert(member_toks(o)[k - 1] == seq![Kind::Ident(key), Kind::Equal] + toks(val));
        assert(c0 + e + seq![Kind::Ident(key)] + e + seq![Kind::Equal] + e + toks(val) + e
            =~= concat_all(member_toks(o).take(k)));
    }
}

/// The text that the writer gives a portable tree scans to the token
/// categories of that tree.
pub proof fn lemma_render(s: Seq<char>, i: int, v: ValueModel, ind: nat)
    requires
        portable(v),
        render(v, ind) is Ok,
        at(s, i, render(v, ind)->Ok_0),
        ends_ok(s, i + render(v, ind)->Ok_0.len()),
    ensures
        scans_all(s, i, toks(v), i + render(v, ind)->Ok_0.len()),
    decreases v, 0int,
{
    let text = render(v, ind)->Ok_0;
    match v {
        ValueModel::Str(w) => {
            lemma_string(s, i, w);
        },
        ValueModel::Num(w) => {
            lemma_number(s, i, w);
        },
        ValueModel::Bool(b) => {
            let w = if b { true_word() } else { false_word() };
            assert(w[0] == '$');
            assert forall|j: int| 1 <= j < w.len() implies spec_is_alphanumeric(#[trigger] w[j]) by {
                if b {
                    assert(w[1] == 't' && w[2] == 'r' && w[3] == 'u' && w[4] == 'e');
                } else {
                    assert(w[1] == 'f' && w[2] == 'a' && w[3] == 'l' && w[4] == 's' && w[5] == 'e');
                }
            }
            lemma_word(s, i, w);
        },
        ValueModel::Null => {},
        ValueModel::Arr(a) => {
            let parts = render_items(a, ind + 4);
            let body = join_lines(parts, ind + 4)->Ok_0;
            let hdr = seq!['@', '(', '\n'];
            let ftr = seq![')', '\n'];
            assert(text == hdr + body + pad(ind) + ftr);
            assert(text =~= hdr + (body + (pad(ind) + ftr)));
            lemma_at_split(s, i, hdr, body + (pad(ind) + ftr));
            lemma_at_split(s, i + 3, body, pad(ind) + ftr);
            let pb = i + 3 + body.len();
            lemma_at_split(s, pb, pad(ind), ftr);
            let pf = pb + ind;
            lemma_at_index(s, i, hdr, 0);
            lemma_at_index(s, i, hdr, 1);
            lemma_at_index(s, i, hdr, 2);
            lemma_at_index(s, pf, ftr, 0);
            lemma_at_index(s, pf, ftr, 1);
            lemma_one(s, i);
            lemma_one(s, i + 1);
            lemma_one(s, i + 2);
            lemma_items(s, i + 3, a, ind + 4, a.len() as int);
            assert(parts.take(a.len() as int) =~= parts);
            assert(item_toks(a).take(a.len() as int) =~= item_toks(a));
            lemma_spaces(s, pb, ind);
            lemma_one(s, pf);
            lemma_one(s, pf + 1);
            let e = Seq::<Kind>::empty();
            assert(char_kinds('\n') =~= e);
            assert(char_kinds('@') =~= seq![Kind::At]);
            assert(char_kinds('(') =~= seq![Kind::LeftParen]);
            assert(char_kinds(')') =~= seq![Kind::RightParen]);
            let c = concat_all(item_toks(a));
            lemma_chain(s, i, seq![Kind::At], i + 1, seq![Kind::LeftParen], i + 2);
            lemma_chain(s, i, seq![Kind::At] + seq![Kind::LeftParen], i + 2, e, i + 3);
            lemma_chain(s, i, seq![Kind::At] + seq![Kind::LeftParen] + e, i + 3, c, pb);
            lemma_chain(s, i, seq![Kind::At] + seq![Kind::LeftParen] + e + c, pb, e, pf);
            lemma_chain(s, i, seq![Kind::At] + seq![Kind::LeftParen] + e + c + e, pf, seq![Kind::RightParen], pf + 1);
            lemma_chain(s, i, seq![Kind::At] + seq![Kind::LeftParen] + e + c + e + seq![Kind::RightParen], pf + 1, e, pf + 2);
            assert(seq![Kind::At] + seq![Kind::LeftParen] + e + c + e + seq![Kind::RightParen] + e =~= toks(v));
        },
        ValueModel::Obj(o) => {
            let parts = render_members(o, ind + 4);
            let body = join_lines(parts, ind + 4)->Ok_0;
            let hdr = seq!['@', '{', '\n'];
            let ftr = seq!['}', '\n'];
            assert(text == hdr + body + pad(ind) + ftr);
            assert(text =~= hdr + (body + (pad(ind) + ftr)));
            lemma_at_split(s, i, hdr, body + (pad(ind) + ftr));
            lemma_at_split(s, i + 3, body, pad(ind) + ftr);
            let pb = i + 3 + body.len();
            lemma_at_split(s, pb, pad(ind), ftr);
            let pf = pb + ind;
            lemma_at_index(s, i, hdr, 0);
            lemma_at_index(s, i, hdr, 1);
            lemma_at_index(s, i, hdr, 2);
            lemma_at_index(s, pf, ftr, 0);
            lemma_at_index(s, pf, ftr, 1);
            lemma_one(s, i);
            lemma_one(s, i + 1);
            lemma_one(s, i + 2);
            lemma_members(s, i + 3, o, ind + 4, o.len() as int);
            assert(parts.take(o.len() as int) =~= parts);
            assert(member_toks(o).take(o.len() as int) =~= member_toks(o));
            lemma_spaces(s, pb, ind);
            lemma_one(s, pf);
            lemma_one(s, pf + 1);
            let e = Seq::<Kind>::empty();
            assert(char_kinds('\n') =~= e);
            assert(char_kinds('@') =~= seq![Kind::At]);
            assert(char_kinds('{') =~= seq![Kind::LeftBrace]);
            assert(char_kinds('}') =~= seq![Kind::RightBrace]);
            let c = concat_all(member_toks(o));
            lemma_chain(s, i, seq![Kind::At], i + 1, seq![Kind::LeftBrace], i + 2);
            lemma_chain(s, i, seq![Kind::At] + seq![Kind::LeftBrace], i + 2, e, i + 3);
            lemma_chain(s, i, seq![Kind::At] + seq![Kind::LeftBrace] + e, i + 3, c, pb);
            lemma_chain(s, i, seq![Kind::At] + seq![Kind::LeftBrace] + e + c, pb, e, pf);
            lemma_chain(s, i, seq![Kind::At] + seq![Kind::LeftBrace] + e + c + e, pf, seq![Kind::RightBrace], pf + 1);
            lemma_chain(s, i, seq![Kind::At] + seq![Kind::LeftBrace] + e + c + e + seq![Kind::RightBrace], pf + 1, e, pf + 2);
            assert(seq![Kind::At] + seq![Kind::LeftBrace] + e + c + e + seq![Kind::RightBrace] + e =~= toks(v));
        },
    }
}

} // verus!
