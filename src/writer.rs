use vstd::prelude::*;
use crate::lexer::{false_word, true_word};
use crate::value::{Value, ValueModel, lemma_array_view, lemma_object_view};

verus! {

/// Why a value tree cannot be written.
#[derive(Clone, Copy, Debug, PartialEq, Eq, Structural)]
pub enum WriteError {
    /// The tree holds a null, which the notation cannot express.
    UnsupportedValue,
    /// The indentation of a nested container would not fit in a `usize`.
    NestingTooDeep,
}

/// `n` spaces.
pub open spec fn pad(n: nat) -> Seq<char> {
    Seq::new(n, |i: int| ' ')
}

/// The lines of a container's body, each indented by `indent` and ended by
/// a newline, or the first failure among the parts.
pub open spec fn join_lines(parts: Seq<Result<Seq<char>, WriteError>>, indent: nat) -> Result<
    Seq<char>,
    WriteError,
>
    decreases parts.len(),
{
    if parts.len() == 0 {
        Ok(Seq::empty())
    } else {
        match join_lines(parts.drop_last(), indent) {
            Err(e) => Err(e),
            Ok(a) => match parts.last() {
                Err(e) => Err(e),
                Ok(b) => Ok(a + pad(indent) + b + seq!['\n']),
            },
        }
    }
}

/// One object member as written: `key = value`.
pub open spec fn member(key: Seq<char>, r: Result<Seq<char>, WriteError>) -> Result<Seq<char>, WriteError> {
    match r {
        Ok(text) => Ok(key + seq![' ', '=', ' '] + text),
        Err(e) => Err(e),
    }
}

/// The text of `v` written at indentation `indent`.
pub open spec fn render(v: ValueModel, indent: nat) -> Result<Seq<char>, WriteError>
    decreases v,
{
    match v {
        ValueModel::Str(s) => Ok(seq!['"'] + s + seq!['"']),
        ValueModel::Num(t) => Ok(t),
        ValueModel::Bool(b) => Ok(
            if b {
                true_word()
            } else {
                false_word()
            },
        ),
        ValueModel::Null => Err(WriteError::UnsupportedValue),
        ValueModel::Arr(a) => if indent + 4 > usize::MAX {
            Err(WriteError::NestingTooDeep)
        } else {
            match join_lines(render_items(a, indent + 4), indent + 4) {
                Ok(body) => Ok(seq!['@', '(', '\n'] + body + pad(indent) + seq![')', '\n']),
                Err(e) => Err(e),
            }
        },
        ValueModel::Obj(o) => if indent + 4 > usize::MAX {
            Err(WriteError::NestingTooDeep)
        } else {
            match join_lines(render_members(o, indent + 4), indent + 4) {
                Ok(body) => Ok(seq!['@', '{', '\n'] + body + pad(indent) + seq!['}', '\n']),
                Err(e) => Err(e),
            }
        },
    }
}

/// The texts of the elements `a`, each written at indentation `indent`.
pub open spec fn render_items(a: Seq<ValueModel>, indent: nat) -> Seq<Result<Seq<char>, WriteError>>
    decreases a,
{
    Seq::new(a.len(), |i: int| if 0 <= i < a.len() { render(a[i], indent) } else { Err(WriteError::UnsupportedValue) })
}

/// The texts of the members `o`, each value written at indentation `indent`.
pub open spec fn render_members(o: Seq<(Seq<char>, ValueModel)>, indent: nat) -> Seq<Result<Seq<char>, WriteError>>
    decreases o,
{
    Seq::new(
        o.len(),
        |i: int| if 0 <= i < o.len() { member(o[i].0, render(o[i].1, indent)) } else { Err(WriteError::UnsupportedValue) },
    )
}

/// `r` agrees with the spec result `res`.
pub open spec fn written(res: Result<Seq<char>, WriteError>, r: Result<String, WriteError>) -> bool {
    match res {
        Ok(s) => r matches Ok(x) && x@ == s,
        Err(e) => r == Err::<String, WriteError>(e),
    }
}

/// `num` spaces.
pub fn padding(num: usize) -> (r: String)
    ensures
        r@ == pad(num as nat),
{
    let mut r = String::new();
    let mut k: usize = 0;
    proof {
        reveal_strlit(" ");
        assert(r@ =~= pad(0));
    }
    while k < num
        invariant
            k <= num,
            r@ == pad(k as nat),
        decreases num - k,
    {
        r.append(" ");
        proof {
            reveal_strlit(" ");
            assert(r@ =~= pad((k + 1) as nat));
        }
        k = k + 1;
    }
    r
}

/// Writes value trees in the notation; the indentation grows by four
/// spaces per level of nesting.
pub struct Writer {
    pub indent: usize,
    pub root: Value,
}

impl Writer {
    /// A writer for `root`, at no indentation.
    pub fn new(root: Value) -> (r: Self)
        ensures
            r.indent == 0,
            r.root == root,
    {
        Writer { indent: 0, root }
    }

    /// The text of the root value at the current indentation.
    pub fn write(&mut self) -> (r: Result<String, WriteError>)
        ensures
            final(self).indent == old(self).indent,
            final(self).root == old(self).root,
            written(render(old(self).root@, old(self).indent as nat), r),
    {
        let mut inner = Writer { indent: self.indent, root: Value::Null };
        inner.write_value(&self.root)
    }

    /// The text of `value` at the current indentation.
    pub fn write_value(&mut self, value: &Value) -> (r: Result<String, WriteError>)
        ensures
            final(self).indent == old(self).indent,
            final(self).root == old(self).root,
            written(render(value@, old(self).indent as nat), r),
        decreases value,
    {
        match value {
            Value::String(s) => {
                let mut r = String::from_str("\"");
                proof {
                    reveal_strlit("\"");
                    assert("\""@ =~= seq!['"']);
                }
                r.append(s.as_str());
                r.append("\"");
                proof {
                    assert(r@ =~= seq!['"'] + s@ + seq!['"']);
                }
                Ok(r)
            },
            Value::Number(n) => Ok(n.clone()),
            Value::Boolean(b) => {
                proof {
                    reveal_strlit("$true");
                    reveal_strlit("$false");
                    assert("$true"@ =~= true_word());
                    assert("$false"@ =~= false_word());
                }
                if *b {
                    Ok(String::from_str("$true"))
                } else {
                    Ok(String::from_str("$false"))
                }
            },
            Value::Null => Err(WriteError::UnsupportedValue),
            Value::Array(arr) => {
                if self.indent > usize::MAX - 4 {
                    return Err(WriteError::NestingTooDeep);
                }
                let ghost ind = self.indent as nat;
                let ghost a = value@->Arr_0;
                let ghost parts = render_items(a, ind + 4);
                let mut result = String::from_str("@(\n");
                proof {
                    lemma_array_view(*arr);
                    assert(parts.len() == a.len());
                    reveal_strlit("@(\n");
                    assert(parts.take(0) =~= Seq::<Result<Seq<char>, WriteError>>::empty());
                    assert(result@ =~= seq!['@', '(', '\n'] + Seq::<char>::empty());
                }
                self.indent = self.indent + 4;
                let mut k: usize = 0;
                while k < arr.len()
                    invariant
                        k <= arr@.len(),
                        self.indent == ind + 4,
                        ind == old(self).indent,
                        self.root == old(self).root,
                        a.len() == arr@.len(),
                        parts == render_items(a, ind + 4),
                        parts.len() == a.len(),
                        forall|i: int| 0 <= i < a.len() ==> #[trigger] parts[i] == render(a[i], ind + 4),
                        value@ == ValueModel::Arr(a),
                        *value == Value::Array(*arr),
                        forall|i: int| 0 <= i < a.len() ==> #[trigger] a[i] == arr@[i]@,
                        join_lines(parts.take(k as int), ind + 4) matches Ok(body) && result@ == seq!['@', '(', '\n'] + body,
                    decreases arr.len() - k,
                {
                    proof {
                        assert(decreases_to!(*value => *arr));
                        assert(decreases_to!(*arr => arr[k as int]));
                    }
                    let item = self.write_value(&arr[k]);
                    proof {
                        assert(parts.take(k + 1).drop_last() =~= parts.take(k as int));
                        assert(parts[k as int] == render(arr@[k as int]@, ind + 4));
                    }
                    match item {
                        Err(e) => {
                            self.indent = self.indent - 4;
                            proof {
                                assert(parts.take(k + 1).last() == parts[k as int]);
                                assert(join_lines(parts.take(k + 1), ind + 4) == Err::<Seq<char>, WriteError>(e));
                                lemma_join_prefix_err(parts, (k + 1) as nat, ind + 4);
                            }
                            return Err(e);
                        },
                        Ok(text) => {
                            let p = padding(self.indent);
                            result.append(p.as_str());
                            result.append(text.as_str());
                            result.append("\n");
                            proof {
                                reveal_strlit("\n");
                                let prev = join_lines(parts.take(k as int), ind + 4)->Ok_0;
                                assert(result@ =~= seq!['@', '(', '\n'] + (prev + pad(ind + 4) + text@ + seq!['\n']));
                            }
                        },
                    }
                    k = k + 1;
                }
                self.indent = self.indent - 4;
                let p = padding(self.indent);
                result.append(p.as_str());
                result.append(")\n");
                proof {
                    reveal_strlit(")\n");
                    assert(parts.take(a.len() as int) =~= parts);
                    let body = join_lines(parts, ind + 4)->Ok_0;
                    assert(result@ =~= seq!['@', '(', '\n'] + body + pad(ind) + seq![')', '\n']);
                }
                Ok(result)
            },
            Value::Object(obj) => {
                if self.indent > usize::MAX - 4 {
                    return Err(WriteError::NestingTooDeep);
                }
                let ghost ind = self.indent as nat;
                let ghost o = value@->Obj_0;
                let ghost parts = render_members(o, ind + 4);
                let mut result = String::from_str("@{\n");
                proof {
                    lemma_object_view(*obj);
                    reveal_strlit("@{\n");
                    assert(parts.take(0) =~= Seq::<Result<Seq<char>, WriteError>>::empty());
                    assert(result@ =~= seq!['@', '{', '\n'] + Seq::<char>::empty());
                }
                self.indent = self.indent + 4;
                let mut k: usize = 0;
                while k < obj.len()
                    invariant
                        k <= obj@.len(),
                        self.indent == ind + 4,
                        ind == old(self).indent,
                        self.root == old(self).root,
                        o.len() == obj@.len(),
                        parts == render_members(o, ind + 4),
                        parts.len() == o.len(),
                        forall|i: int| 0 <= i < o.len() ==> #[trigger] o[i] == (obj@[i].0@, obj@[i].1@),
                        value@ == ValueModel::Obj(o),
                        *value == Value::Object(*obj),
                        join_lines(parts.take(k as int), ind + 4) matches Ok(body) && result@ == seq!['@', '{', '\n'] + body,
                    decreases obj.len() - k,
                {
                    proof {
                        assert(decreases_to!(*value => *obj));
                        assert(decreases_to!(*obj => obj[k as int]));
                        assert(decreases_to!(obj[k as int] => obj[k as int].1));
                    }
                    let item = self.write_value(&obj[k].1);
                    proof {
                        assert(parts.take(k + 1).drop_last() =~= parts.take(k as int));
                        assert(parts[k as int] == member(obj@[k as int].0@, render(obj@[k as int].1@, ind + 4)));
                    }
                    match item {
                        Err(e) => {
                            self.indent = self.indent - 4;
                            proof {
                                assert(parts.take(k + 1).last() == parts[k as int]);
                                assert(join_lines(parts.take(k + 1), ind + 4) == Err::<Seq<char>, WriteError>(e));
                                lemma_join_prefix_err(parts, (k + 1) as nat, ind + 4);
                            }
                            return Err(e);
                        },
                        Ok(text) => {
                            let p = padding(self.indent);
                            result.append(p.as_str());
                            result.append(obj[k].0.as_str());
                            result.append(" = ");
                            result.append(text.as_str());
                            result.append("\n");
                            proof {
                                reveal_strlit(" = ");
                                reveal_strlit("\n");
                                assert(" = "@ =~= seq![' ', '=', ' ']);
                                let prev = join_lines(parts.take(k as int), ind + 4)->Ok_0;
                                assert(result@ =~= seq!['@', '{', '\n'] + (prev + pad(ind + 4) + (obj@[k as int].0@ + seq![' ', '=', ' '] + text@) + seq!['\n']));
                            }
                        },
                    }
                    k = k + 1;
                }
                self.indent = self.indent - 4;
                let p = padding(self.indent);
                result.append(p.as_str());
                result.append("}\n");
                proof {
                    reveal_strlit("}\n");
                    assert(parts.take(o.len() as int) =~= parts);
                    let body = join_lines(parts, ind + 4)->Ok_0;
                    assert(result@ =~= seq!['@', '{', '\n'] + body + pad(ind) + seq!['}', '\n']);
                }
                Ok(result)
            },
        }
    }
}

/// A failure in a prefix of the parts is the failure of the whole.
proof fn lemma_join_prefix_err(parts: Seq<Result<Seq<char>, WriteError>>, n: nat, indent: nat)
    requires
        n <= parts.len(),
        join_lines(parts.take(n as int), indent) is Err,
    ensures
        join_lines(parts, indent) == join_lines(parts.take(n as int), indent),
    decreases parts.len(),
{
    if n < parts.len() {
        assert(parts.drop_last().take(n as int) =~= parts.take(n as int));
        lemma_join_prefix_err(parts.drop_last(), n, indent);
    } else {
        assert(parts.take(n as int) =~= parts);
    }
}

} // verus!
