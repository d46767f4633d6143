use vstd::prelude::*;
use crate::chars::{spec_is_alpha, spec_is_alphanumeric, spec_is_digit};
use crate::lexer::{Kind, TokenModel, false_word, true_word};
use crate::parser::{parse_array_body, parse_object_body, parse_value};
use crate::value::{ValueModel, keys_unique, obj_insert};
use crate::convert::{PsError, read_model};
use crate::lexer::{lex, lex_from, prepend};
use crate::scanlaw::{at, kinds_of, lemma_render, scans_all, scans_to};
use crate::writer::render;

verus! {

/// The sequences `parts` one after another.
pub open spec fn concat_all(parts: Seq<Seq<Kind>>) -> Seq<Kind>
    decreases parts.len(),
{
    if parts.len() == 0 {
        Seq::empty()
    } else {
        concat_all(parts.drop_last()) + parts.last()
    }
}

/// The token categories that the text of `v` scans to.
pub open spec fn toks(v: ValueModel) -> Seq<Kind>
    decreases v,
{
    match v {
        ValueModel::Str(s) => seq![Kind::Str(s)],
        ValueModel::Num(n) => seq![Kind::Num(n)],
        ValueModel::Bool(b) => seq![Kind::Bool(b)],
        ValueModel::Null => Seq::empty(),
        ValueModel::Arr(a) => seq![Kind::At, Kind::LeftParen] + concat_all(item_toks(a)) + seq![Kind::RightParen],
        ValueModel::Obj(o) => seq![Kind::At, Kind::LeftBrace] + concat_all(member_toks(o)) + seq![Kind::RightBrace],
    }
}

/// The token categories of each element.
pub open spec fn item_toks(a: Seq<ValueModel>) -> Seq<Seq<Kind>>
    decreases a,
{
    Seq::new(a.len(), |i: int| if 0 <= i < a.len() { toks(a[i]) } else { Seq::empty() })
}

/// The token categories of each member: its key, `=`, its value.
pub open spec fn member_toks(o: Seq<(Seq<char>, ValueModel)>) -> Seq<Seq<Kind>>
    decreases o,
{
    Seq::new(
        o.len(),
        |i: int| if 0 <= i < o.len() { seq![Kind::Ident(o[i].0), Kind::Equal] + toks(o[i].1) } else { Seq::empty() },
    )
}

/// A text that scans to one identifier token: an identifier start followed by
/// identifier characters, and not a boolean literal.
pub open spec fn is_word(k: Seq<char>) -> bool {
    &&& k.len() > 0
    &&& spec_is_alpha(k[0])
    &&& forall|j: int| 1 <= j < k.len() ==> spec_is_alphanumeric(#[trigger] k[j])
    &&& k != true_word()
    &&& k != false_word()
}

/// A tree that the notation can carry unchanged: no null, no string holding
/// `"`, numbers that are runs of decimal digits, and object keys that are
/// distinct identifiers.
pub open spec fn portable(v: ValueModel) -> bool
    decreases v,
{
    match v {
        ValueModel::Str(s) => forall|j: int| 0 <= j < s.len() ==> #[trigger] s[j] != '"',
        ValueModel::Num(t) => t.len() > 0 && forall|j: int| 0 <= j < t.len() ==> spec_is_digit(#[trigger] t[j]),
        ValueModel::Bool(_) => true,
        ValueModel::Null => false,
        ValueModel::Arr(a) => forall|i: int| 0 <= i < a.len() ==> portable(#[trigger] a[i]),
        ValueModel::Obj(o) => {
            &&& keys_unique(o)
            &&& forall|i: int| 0 <= i < o.len() ==> is_word(#[trigger] o[i].0)
            &&& forall|i: int| 0 <= i < o.len() ==> portable(#[trigger] o[i].1)
        },
    }
}

/// The tokens of `t` from position `i` on begin with the categories `ks`.
pub open spec fn kinds_at(t: Seq<TokenModel>, i: int, ks: Seq<Kind>) -> bool {
    &&& 0 <= i
    &&& i + ks.len() <= t.len()
    &&& forall|k: int| 0 <= k < ks.len() ==> #[trigger] t[i + k].kind == ks[k]
}

proof fn lemma_concat_append(x: Seq<Seq<Kind>>, y: Seq<Seq<Kind>>)
    ensures
        concat_all(x + y) == concat_all(x) + concat_all(y),
    decreases y.len(),
{
    if y.len() == 0 {
        assert(x + y =~= x);
        assert(concat_all(x) + concat_all(y) =~= concat_all(x));
    } else {
        assert((x + y).drop_last() =~= x + y.drop_last());
        lemma_concat_append(x, y.drop_last());
        assert(concat_all(x + y) =~= concat_all(x) + concat_all(y));
    }
}

/// The categories of `parts` split at `k`: the first `k` parts, part `k`,
/// and the rest.
pub proof fn lemma_concat_split(parts: Seq<Seq<Kind>>, k: int)
    requires
        0 <= k < parts.len(),
    ensures
        concat_all(parts) == concat_all(parts.take(k)) + parts[k] + concat_all(parts.skip(k + 1)),
        concat_all(parts.take(k + 1)) == concat_all(parts.take(k)) + parts[k],
{
    assert(parts =~= parts.take(k) + (seq![parts[k]] + parts.skip(k + 1)));
    lemma_concat_append(parts.take(k), seq![parts[k]] + parts.skip(k + 1));
    lemma_concat_append(seq![parts[k]], parts.skip(k + 1));
    let single = seq![parts[k]];
    assert(single.drop_last() =~= Seq::<Seq<Kind>>::empty());
    assert(concat_all(single.drop_last()) == Seq::<Kind>::empty());
    assert(single.last() == parts[k]);
    assert(concat_all(single) =~= Seq::<Kind>::empty() + parts[k]);
    assert(concat_all(single) =~= parts[k]);
    assert(parts.take(k + 1).drop_last() =~= parts.take(k));
    assert(concat_all(parts) =~= concat_all(parts.take(k)) + parts[k] + concat_all(parts.skip(k + 1)));
}

proof fn lemma_kinds_split(t: Seq<TokenModel>, i: int, a: Seq<Kind>, b: Seq<Kind>)
    requires
        kinds_at(t, i, a + b),
    ensures
        kinds_at(t, i, a),
        kinds_at(t, i + a.len(), b),
{
    assert forall|k: int| 0 <= k < a.len() implies #[trigger] t[i + k].kind == a[k] by {
        assert(t[i + k].kind == (a + b)[k]);
    }
    assert forall|k: int| 0 <= k < b.len() implies #[trigger] t[i + a.len() + k].kind == b[k] by {
        assert(t[i + (a.len() + k)].kind == (a + b)[a.len() + k]);
        assert(i + (a.len() + k) == i + a.len() + k);
    }
}

/// The tokens of a portable tree parse back to that tree.
pub proof fn lemma_parse_toks(t: Seq<TokenModel>, i: int, v: ValueModel)
    requires
        portable(v),
        kinds_at(t, i, toks(v)),
    ensures
        parse_value(t, i) == Ok::<(ValueModel, int), crate::parser::ParseError>((v, i + toks(v).len())),
    decreases v, 0nat,
{
    assert(t[i + 0].kind == toks(v)[0]);
    match v {
        ValueModel::Arr(a) => {
            let c = concat_all(item_toks(a));
            assert(toks(v) =~= seq![Kind::At, Kind::LeftParen] + (c + seq![Kind::RightParen]));
            lemma_kinds_split(t, i, seq![Kind::At, Kind::LeftParen], c + seq![Kind::RightParen]);
            assert(t[i + 1].kind == toks(v)[1]);
            lemma_parse_items(t, i + 2, a, 0);
            assert(a.take(0) =~= Seq::<ValueModel>::empty());
            assert(item_toks(a).take(0) =~= Seq::<Seq<Kind>>::empty());
            assert(a.take(a.len() as int) =~= a);
        },
        ValueModel::Obj(o) => {
            let c = concat_all(member_toks(o));
            assert(toks(v) =~= seq![Kind::At, Kind::LeftBrace] + (c + seq![Kind::RightBrace]));
            lemma_kinds_split(t, i, seq![Kind::At, Kind::LeftBrace], c + seq![Kind::RightBrace]);
            assert(t[i + 1].kind == toks(v)[1]);
            lemma_parse_members(t, i + 2, o, 0);
            assert(o.take(0) =~= Seq::<(Seq<char>, ValueModel)>::empty());
            assert(member_toks(o).take(0) =~= Seq::<Seq<Kind>>::empty());
            assert(o.take(o.len() as int) =~= o);
        },
        _ => {},
    }
}

proof fn lemma_parse_items(t: Seq<TokenModel>, i0: int, a: Seq<ValueModel>, k: int)
    requires
        forall|j: int| 0 <= j < a.len() ==> portable(#[trigger] a[j]),
        kinds_at(t, i0, concat_all(item_toks(a)) + seq![Kind::RightParen]),
        0 <= k <= a.len(),
    ensures
        parse_array_body(t, i0 + concat_all(item_toks(a).take(k)).len(), a.take(k)) == Ok::<
            (ValueModel, int),
            crate::parser::ParseError,
        >((ValueModel::Arr(a), i0 + concat_all(item_toks(a)).len() + 1)),
    decreases a, a.len() - k,
{
    let parts = item_toks(a);
    let c = concat_all(parts);
    lemma_kinds_split(t, i0, c, seq![Kind::RightParen]);
    if k == a.len() {
        assert(parts.take(k) =~= parts);
        assert(a.take(k) =~= a);
        assert(t[i0 + c.len() + 0].kind == Kind::RightParen);
    } else {
        let pos = i0 + concat_all(parts.take(k)).len();
        lemma_concat_split(parts, k);
        assert(c =~= concat_all(parts.take(k)) + (parts[k] + concat_all(parts.skip(k + 1))));
        lemma_kinds_split(t, i0, concat_all(parts.take(k)), parts[k] + concat_all(parts.skip(k + 1)));
        lemma_kinds_split(t, pos, parts[k], concat_all(parts.skip(k + 1)));
        assert(parts[k] == toks(a[k]));
        assert(decreases_to!(a => a[k]));
        lemma_parse_toks(t, pos, a[k]);
        lemma_toks_nonempty(a[k]);
        assert(t[pos + 0].kind == toks(a[k])[0]);
        lemma_parse_items(t, i0, a, k + 1);
        assert(a.take(k).push(a[k]) =~= a.take(k + 1));
    }
}

proof fn lemma_parse_members(t: Seq<TokenModel>, i0: int, o: Seq<(Seq<char>, ValueModel)>, k: int)
    requires
        keys_unique(o),
        forall|j: int| 0 <= j < o.len() ==> portable(#[trigger] o[j].1),
        kinds_at(t, i0, concat_all(member_toks(o)) + seq![Kind::RightBrace]),
        0 <= k <= o.len(),
    ensures
        parse_object_body(t, i0 + concat_all(member_toks(o).take(k)).len(), o.take(k)) == Ok::<
            (ValueModel, int),
            crate::parser::ParseError,
        >((ValueModel::Obj(o), i0 + concat_all(member_toks(o)).len() + 1)),
    decreases o, o.len() - k,
{
    let parts = member_toks(o);
    let c = concat_all(parts);
    lemma_kinds_split(t, i0, c, seq![Kind::RightBrace]);
    if k == o.len() {
        assert(parts.take(k) =~= parts);
        assert(o.take(k) =~= o);
        assert(t[i0 + c.len() + 0].kind == Kind::RightBrace);
    } else {
        let pos = i0 + concat_all(parts.take(k)).len();
        lemma_concat_split(parts, k);
        assert(c =~= concat_all(parts.take(k)) + (parts[k] + concat_all(parts.skip(k + 1))));
        lemma_kinds_split(t, i0, concat_all(parts.take(k)), parts[k] + concat_all(parts.skip(k + 1)));
        lemma_kinds_split(t, pos, parts[k], concat_all(parts.skip(k + 1)));
        assert(parts[k] == seq![Kind::Ident(o[k].0), Kind::Equal] + toks(o[k].1));
        lemma_kinds_split(t, pos, seq![Kind::Ident(o[k].0), Kind::Equal], toks(o[k].1));
        assert(t[pos + 0].kind == Kind::Ident(o[k].0));
        assert(t[pos + 1].kind == Kind::Equal);
        assert(decreases_to!(o => o[k]));
        assert(decreases_to!(o[k] => o[k].1));
        lemma_parse_toks(t, pos + 2, o[k].1);
        lemma_toks_nonempty(o[k].1);
        let acc = o.take(k);
        assert(!exists|j: int| 0 <= j < acc.len() && #[trigger] acc[j].0 == o[k].0) by {
            assert forall|j: int| 0 <= j < acc.len() implies #[trigger] acc[j].0 != o[k].0 by {
                assert(acc[j] == o[j]);
            }
        }
        assert(obj_insert(acc, o[k].0, o[k].1) =~= o.take(k + 1));
        lemma_parse_members(t, i0, o, k + 1);
    }
}

proof fn lemma_toks_nonempty(v: ValueModel)
    requires
        portable(v),
    ensures
        toks(v).len() > 0,
{
}

/// Writing a portable tree and reading the text back gives the same tree,
/// whenever the writer succeeds (it fails only on nesting too deep for its
/// indentation to fit in a `usize`); the value read ends at the last token.
pub proof fn lemma_round_trip(v: ValueModel)
    requires
        portable(v),
        render(v, 0) is Ok,
    ensures
        read_model(render(v, 0)->Ok_0) == Ok::<ValueModel, PsError>(v),
        lex(render(v, 0)->Ok_0) is Ok,
        parse_value(lex(render(v, 0)->Ok_0)->Ok_0, 0) == Ok::<(ValueModel, int), crate::parser::ParseError>(
            (v, lex(render(v, 0)->Ok_0)->Ok_0.len() as int),
        ),
{
    let s = render(v, 0)->Ok_0;
    assert(s.subrange(0, s.len() as int) =~= s);
    assert(at(s, 0, s));
    lemma_render(s, 0, v, 0);
    reveal(scans_all);
    assert(scans_to(s, 0, 1, toks(v), s.len() as int));
    let (ts, l2) = choose|ts: Seq<TokenModel>, l2: nat|
        #![trigger kinds_of(ts), lex_from(s, s.len() as int, l2)]
        kinds_of(ts) == toks(v) && lex_from(s, 0, 1) == prepend(ts, lex_from(s, s.len() as int, l2));
    assert(lex_from(s, s.len() as int, l2) == Ok::<Seq<TokenModel>, crate::lexer::LexError>(Seq::empty()));
    assert(ts + Seq::<TokenModel>::empty() =~= ts);
    assert(lex(s) == Ok::<Seq<TokenModel>, crate::lexer::LexError>(ts));
    assert(ts.len() == toks(v).len());
    assert forall|k: int| 0 <= k < toks(v).len() implies #[trigger] ts[0 + k].kind == toks(v)[k] by {
        assert(kinds_of(ts)[k] == ts[k].kind);
    }
    lemma_parse_toks(ts, 0, v);
}

} // verus!
