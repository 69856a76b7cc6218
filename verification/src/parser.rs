//! The recursive-descent parser: consumes the token stream and builds a typed
//! value tree, or reports the first error.

use vstd::prelude::*;

use crate::tokenizer::{is_digit, is_ws, lemma_next_token_advances, lex_number_end, lex_string_body, simple_escape, skip_ws, spec_next_token, Token, TokenModel, Tokenizer};

verus! {

broadcast use lemma_next_token_advances, crate::tokenizer::Tokenizer::lemma_wf_bounds;

/// Everything that can go wrong while reading a document.
///
/// - `LexicalError`: the character stream matches no token grammar at the
///   current position (unknown token start, malformed escape or number,
///   unterminated string).
/// - `UnexpectedEndOfInput`: the token stream ends where at least one more
///   token was grammatically required.
/// - `UnexpectedToken`: a token of the wrong kind appeared where the grammar
///   required a specific kind.
/// - `NumericConversionError`: a numeral's text failed to convert to a number.
///   The verified pipeline never produces it (the tokenizer's grammar is
///   proved to match every numeral it emits); it exists for callers that
///   convert numerals afterwards.
#[derive(Debug, Clone, Copy, PartialEq, Eq, Structural)]
pub enum Error {
    LexicalError,
    UnexpectedEndOfInput,
    UnexpectedToken,
    NumericConversionError,
}

/// A JSON value.  `Number` carries the numeral's exact source text, already
/// checked against JSON's numeric grammar; converting it to a machine number
/// is the caller's choice (and loses nothing here, since the text is kept
/// verbatim).  `Object` holds its entries as a list of key/value pairs;
/// every tree `parse` returns is well-formed (`value_wf`): each object's
/// keys are pairwise distinct, a duplicate key in the source having
/// overwritten the earlier value (last write wins, as the object's model
/// shows).
#[derive(Debug, PartialEq)]
pub enum Value {
    Null,
    Boolean(bool),
    Number(String),
    String(String),
    Array(Vec<Value>),
    Object(Vec<(String, Value)>),
}

/// The mathematical model of a value: character sequences for the texts, a
/// sequence for an array, and for an object the mapping it denotes.
pub enum ValueModel {
    Null,
    Boolean(bool),
    Number(Seq<char>),
    String(Seq<char>),
    Array(Seq<ValueModel>),
    Object(Map<Seq<char>, ValueModel>),
}

/// The mapping that a sequence of key/value pairs denotes: a later pair with
/// the same key wins.
pub open spec fn entries_map(es: Seq<(Seq<char>, ValueModel)>) -> Map<Seq<char>, ValueModel>
    decreases es.len(),
{
    if es.len() == 0 {
        Map::empty()
    } else {
        entries_map(es.drop_last()).insert(es.last().0, es.last().1)
    }
}

impl View for Value {
    type V = ValueModel;

    open spec fn view(&self) -> ValueModel
        decreases self,
    {
        match self {
            Value::Null => ValueModel::Null,
            Value::Boolean(b) => ValueModel::Boolean(*b),
            Value::Number(s) => ValueModel::Number(s@),
            Value::String(s) => ValueModel::String(s@),
            Value::Array(vs) => ValueModel::Array(seq_model(vs@)),
            Value::Object(es) => ValueModel::Object(entries_map(entries_model(es@))),
        }
    }
}

/// The model of a sequence of values, element by element.
pub open spec fn seq_model(vs: Seq<Value>) -> Seq<ValueModel>
    decreases vs,
{
    if vs.len() == 0 {
        Seq::empty()
    } else {
        seq_model(vs.drop_last()).push(vs[vs.len() - 1]@)
    }
}

/// The model of a sequence of object entries, entry by entry.
pub open spec fn entries_model(es: Seq<(String, Value)>) -> Seq<(Seq<char>, ValueModel)>
    decreases es,
{
    if es.len() == 0 {
        Seq::empty()
    } else {
        entries_model(es.drop_last()).push((es[es.len() - 1].0@, es[es.len() - 1].1@))
    }
}

/// The length and the entries of `seq_model`, element by element.
pub proof fn lemma_seq_model_props(vs: Seq<Value>)
    ensures
        seq_model(vs).len() == vs.len(),
        forall|k: int| 0 <= k < vs.len() ==> #[trigger] seq_model(vs)[k] == vs[k]@,
    decreases vs.len(),
{
    if vs.len() > 0 {
        lemma_seq_model_props(vs.drop_last());
        assert(seq_model(vs) == seq_model(vs.drop_last()).push(vs[vs.len() - 1]@));
        assert forall|k: int| 0 <= k < vs.len() implies #[trigger] seq_model(vs)[k] == vs[k]@ by {
            if k < vs.len() - 1 {
                assert(seq_model(vs)[k] == seq_model(vs.drop_last())[k]);
                assert(vs.drop_last()[k] == vs[k]);
            }
        }
    }
}

/// The length and the entries of `entries_model`, entry by entry.
pub proof fn lemma_entries_model_props(es: Seq<(String, Value)>)
    ensures
        entries_model(es).len() == es.len(),
        forall|k: int|
            0 <= k < es.len() ==> #[trigger] entries_model(es)[k] == (es[k].0@, es[k].1@),
    decreases es.len(),
{
    if es.len() > 0 {
        lemma_entries_model_props(es.drop_last());
        assert(entries_model(es) == entries_model(es.drop_last()).push(
            (es[es.len() - 1].0@, es[es.len() - 1].1@),
        ));
        assert forall|k: int|
            0 <= k < es.len() implies #[trigger] entries_model(es)[k] == (es[k].0@, es[k].1@) by {
            if k < es.len() - 1 {
                assert(entries_model(es)[k] == entries_model(es.drop_last())[k]);
                assert(es.drop_last()[k] == es[k]);
            }
        }
    }
}

/// Well-formedness of a value tree: every object in it keeps pairwise
/// distinct keys.
pub open spec fn value_wf(v: Value) -> bool
    decreases v,
{
    match v {
        Value::Array(vs) => seq_all_wf(vs@),
        Value::Object(es) => entries_unique(es@) && entries_all_wf(es@),
        _ => true,
    }
}

/// Every value of the sequence is well-formed.
pub open spec fn seq_all_wf(vs: Seq<Value>) -> bool
    decreases vs,
{
    if vs.len() == 0 {
        true
    } else {
        seq_all_wf(vs.drop_last()) && value_wf(vs[vs.len() - 1])
    }
}

/// Every value of the entry list is well-formed.
pub open spec fn entries_all_wf(es: Seq<(String, Value)>) -> bool
    decreases es,
{
    if es.len() == 0 {
        true
    } else {
        entries_all_wf(es.drop_last()) && value_wf(es[es.len() - 1].1)
    }
}

/// `seq_all_wf`, element by element.
pub proof fn lemma_seq_all_wf_props(vs: Seq<Value>)
    ensures
        seq_all_wf(vs) <==> (forall|k: int| 0 <= k < vs.len() ==> value_wf(#[trigger] vs[k])),
    decreases vs.len(),
{
    if vs.len() > 0 {
        lemma_seq_all_wf_props(vs.drop_last());
        assert(forall|k: int| 0 <= k < vs.len() - 1 ==> vs.drop_last()[k] == #[trigger] vs[k]);
    }
}

/// `entries_all_wf`, entry by entry.
pub proof fn lemma_entries_all_wf_props(es: Seq<(String, Value)>)
    ensures
        entries_all_wf(es) <==> (forall|k: int|
            0 <= k < es.len() ==> value_wf((#[trigger] es[k]).1)),
    decreases es.len(),
{
    if es.len() > 0 {
        lemma_entries_all_wf_props(es.drop_last());
        assert(forall|k: int| 0 <= k < es.len() - 1 ==> es.drop_last()[k] == #[trigger] es[k]);
    }
}

/// The model of what `parse` returns.
pub open spec fn result_model(r: Result<Value, Error>) -> Result<ValueModel, Error> {
    match r {
        Ok(v) => Ok(v@),
        Err(e) => Err(e),
    }
}

// ---------------------------------------------------------------------------
// The reference parser: recursive-descent over the reference lexer's tokens.
// It assigns to every input the value tree or the first error; `parse` is
// proved to return exactly what it assigns.
// ---------------------------------------------------------------------------

/// The value starting at `i`: pull one token and dispatch on it.
pub open spec fn spec_parse_value(s: Seq<char>, i: int) -> Result<(ValueModel, int), Error>
    decreases s.len() - i, 3int,
{
    match spec_next_token(s, i) {
        Err(e) => Err(e),
        Ok(tj) => spec_parse_value_from(s, tj.0, tj.1),
    }
}

/// The value whose first token `t` ended at `j`.  A separator or a closing
/// bracket where a value was expected is `UnexpectedToken`.
pub open spec fn spec_parse_value_from(s: Seq<char>, t: TokenModel, j: int) -> Result<
    (ValueModel, int),
    Error,
>
    decreases s.len() - j, 2int,
{
    match t {
        TokenModel::Null => Ok((ValueModel::Null, j)),
        TokenModel::True => Ok((ValueModel::Boolean(true), j)),
        TokenModel::False => Ok((ValueModel::Boolean(false), j)),
        TokenModel::String(cs) => Ok((ValueModel::String(cs), j)),
        TokenModel::Number(cs) => Ok((ValueModel::Number(cs), j)),
        TokenModel::ArrayOpen => spec_parse_array(s, j),
        TokenModel::ObjectOpen => spec_parse_object(s, j),
        _ => Err(Error::UnexpectedToken),
    }
}

/// The array whose `[` ended at `i`: an immediate `]` is the empty array;
/// otherwise elements follow, separated by commas.
pub open spec fn spec_parse_array(s: Seq<char>, i: int) -> Result<(ValueModel, int), Error>
    decreases s.len() - i, 1int,
{
    match spec_next_token(s, i) {
        Err(e) => Err(e),
        Ok(tj) => {
            if tj.0 == TokenModel::ArrayClose {
                Ok((ValueModel::Array(Seq::empty()), tj.1))
            } else {
                match spec_parse_value_from(s, tj.0, tj.1) {
                    Err(e) => Err(e),
                    Ok(vm) => {
                        if i < vm.1 <= s.len() {
                            spec_parse_array_rest(s, vm.1, seq![vm.0])
                        } else {
                            // a value never ends before its first token; not reachable
                            Err(Error::UnexpectedToken)
                        }
                    }
                }
            }
        }
    }
}

/// After one array element: `]` closes the array, `,` demands another
/// element, anything else is `UnexpectedToken`.
pub open spec fn spec_parse_array_rest(s: Seq<char>, i: int, acc: Seq<ValueModel>) -> Result<
    (ValueModel, int),
    Error,
>
    decreases s.len() - i, 0int,
{
    match spec_next_token(s, i) {
        Err(e) => Err(e),
        Ok(tj) => {
            if tj.0 == TokenModel::ArrayClose {
                Ok((ValueModel::Array(acc), tj.1))
            } else if tj.0 == TokenModel::Comma {
                match spec_parse_value(s, tj.1) {
                    Err(e) => Err(e),
                    Ok(vm) => {
                        if i < vm.1 <= s.len() {
                            spec_parse_array_rest(s, vm.1, acc.push(vm.0))
                        } else {
                            // a value never ends before its first token; not reachable
                            Err(Error::UnexpectedToken)
                        }
                    }
                }
            } else {
                Err(Error::UnexpectedToken)
            }
        }
    }
}

/// The object whose `{` ended at `i`: an immediate `}` is the empty object;
/// otherwise a string key must open the first member.
pub open spec fn spec_parse_object(s: Seq<char>, i: int) -> Result<(ValueModel, int), Error>
    decreases s.len() - i, 1int,
{
    match spec_next_token(s, i) {
        Err(e) => Err(e),
        Ok(tj) => {
            if tj.0 == TokenModel::ObjectClose {
                Ok((ValueModel::Object(Map::empty()), tj.1))
            } else {
                match tj.0 {
                    TokenModel::String(key) => spec_parse_members(s, tj.1, key, Map::empty()),
                    _ => Err(Error::UnexpectedToken),
                }
            }
        }
    }
}

/// After a member's key: `:` and a value must follow; then `}` closes the
/// object and `,` demands a further string key.  Inserting into the mapping
/// lets a later duplicate key win.
pub open spec fn spec_parse_members(
    s: Seq<char>,
    i: int,
    key: Seq<char>,
    acc: Map<Seq<char>, ValueModel>,
) -> Result<(ValueModel, int), Error>
    decreases s.len() - i, 0int,
{
    match spec_next_token(s, i) {
        Err(e) => Err(e),
        Ok(tj) => {
            if tj.0 == TokenModel::Colon {
                match spec_parse_value(s, tj.1) {
                    Err(e) => Err(e),
                    Ok(vm) => {
                        if i < vm.1 <= s.len() {
                            match spec_next_token(s, vm.1) {
                                Err(e) => Err(e),
                                Ok(tj2) => {
                                    if tj2.0 == TokenModel::ObjectClose {
                                        Ok((ValueModel::Object(acc.insert(key, vm.0)), tj2.1))
                                    } else if tj2.0 == TokenModel::Comma {
                                        match spec_next_token(s, tj2.1) {
                                            Err(e) => Err(e),
                                            Ok(tj3) => match tj3.0 {
                                                TokenModel::String(key2) => spec_parse_members(
                                                    s,
                                                    tj3.1,
                                                    key2,
                                                    acc.insert(key, vm.0),
                                                ),
                                                _ => Err(Error::UnexpectedToken),
                                            },
                                        }
                                    } else {
                                        Err(Error::UnexpectedToken)
                                    }
                                }
                            }
                        } else {
                            // a value never ends before its first token; not reachable
                            Err(Error::UnexpectedToken)
                        }
                    }
                }
            } else {
                Err(Error::UnexpectedToken)
            }
        }
    }
}

/// What the whole document means: one value, then nothing but whitespace.
/// A trailing token is `UnexpectedToken`; trailing characters that are no
/// token are `LexicalError`.
pub open spec fn spec_parse(s: Seq<char>) -> Result<ValueModel, Error> {
    match spec_parse_value(s, 0) {
        Err(e) => Err(e),
        Ok(vm) => match spec_next_token(s, vm.1) {
            Err(Error::UnexpectedEndOfInput) => Ok(vm.0),
            Err(e) => Err(e),
            Ok(_) => Err(Error::UnexpectedToken),
        },
    }
}

// ---------------------------------------------------------------------------
// The executable parser.
// ---------------------------------------------------------------------------

/// Pairwise distinct keys.
pub open spec fn entries_unique(es: Seq<(String, Value)>) -> bool {
    forall|a: int, b: int|
        0 <= a < b < es.len() ==> (#[trigger] es[a]).0@ != (#[trigger] es[b]).0@
}

/// Overwriting the pair at `i` with one carrying the same key changes the
/// denoted mapping exactly as inserting that key does, provided no later
/// pair carries it.
proof fn lemma_entries_map_update(es: Seq<(Seq<char>, ValueModel)>, i: int, p: (Seq<char>, ValueModel))
    requires
        0 <= i < es.len(),
        p.0 == es[i].0,
        forall|k: int| i < k < es.len() ==> (#[trigger] es[k]).0 != p.0,
    ensures
        entries_map(es.update(i, p)) == entries_map(es).insert(p.0, p.1),
    decreases es.len(),
{
    if i == es.len() - 1 {
        assert(es.update(i, p).drop_last() =~= es.drop_last());
        assert(es.update(i, p).last() == p);
        assert(entries_map(es.drop_last()).insert(es.last().0, es.last().1).insert(p.0, p.1)
            =~= entries_map(es.drop_last()).insert(p.0, p.1));
    } else {
        assert(es.update(i, p).drop_last() =~= es.drop_last().update(i, p));
        assert(es.update(i, p).last() == es.last());
        assert(es.drop_last()[i] == es[i]);
        lemma_entries_map_update(es.drop_last(), i, p);
        assert(es.last().0 != p.0);
        assert(entries_map(es.drop_last()).insert(p.0, p.1).insert(es.last().0, es.last().1)
            =~= entries_map(es.drop_last()).insert(es.last().0, es.last().1).insert(p.0, p.1));
    }
}

/// Binds `key` to `val` in the entry list: overwrites the entry already
/// carrying `key`, or appends one.  Keys stay pairwise distinct, and the
/// denoted mapping gains exactly this binding.
fn obj_insert(es: &mut Vec<(String, Value)>, key: String, val: Value)
    requires
        entries_unique(old(es)@),
        entries_all_wf(old(es)@),
        value_wf(val),
    ensures
        entries_unique(final(es)@),
        entries_all_wf(final(es)@),
        entries_map(entries_model(final(es)@)) == entries_map(entries_model(old(es)@)).insert(
            key@,
            val@,
        ),
{
    let n = es.len();
    let mut i: usize = 0;
    while i < n
        invariant
            *es == *old(es),
            n == es@.len(),
            entries_unique(es@),
            entries_all_wf(es@),
            value_wf(val),
            0 <= i <= n,
            forall|k: int| 0 <= k < i ==> (#[trigger] es@[k]).0@ != key@,
        decreases n - i,
    {
        if es[i].0 == key {
            let ghost es0 = es@;
            let _ = es.remove(i);
            es.insert(i, (key, val));
            proof {
                assert(es@ =~= es0.update(i as int, (key, val)));
                lemma_entries_model_props(es0);
                lemma_entries_model_update(es0, i as int, (key, val));
                assert(entries_model(es0)[i as int].0 == key@);
                assert forall|k: int| i < k < entries_model(es0).len() implies (
                #[trigger] entries_model(es0)[k]).0 != key@ by {
                    assert(es0[k].0@ != es0[i as int].0@);
                }
                lemma_entries_map_update(entries_model(es0), i as int, (key@, val@));
                assert(entries_model(es@) =~= entries_model(es0).update(i as int, (key@, val@)));
                assert forall|a: int, b: int| 0 <= a < b < es@.len() implies (
                #[trigger] es@[a]).0@ != (#[trigger] es@[b]).0@ by {
                    assert(es@[a].0@ == es0[a].0@);
                    assert(es@[b].0@ == es0[b].0@);
                }
                lemma_entries_all_wf_props(es0);
                lemma_entries_all_wf_props(es@);
                assert forall|k: int| 0 <= k < es@.len() implies value_wf(
                    (#[trigger] es@[k]).1,
                ) by {
                    if k == i as int {
                        assert(es@[k] == (key, val));
                    } else {
                        assert(es@[k] == es0[k]);
                        assert(value_wf(es0[k].1));
                    }
                }
            }
            return;
        }
        i = i + 1;
    }
    let ghost es0 = es@;
    es.push((key, val));
    proof {
        lemma_entries_model_props(es0);
        lemma_entries_model_push(es0, (key, val));
        assert(entries_model(es@).drop_last() =~= entries_model(es0));
        assert(es@.drop_last() =~= es0);
    }
}

/// The model of an updated entry list is the updated model.
proof fn lemma_entries_model_update(es: Seq<(String, Value)>, i: int, p: (String, Value))
    requires
        0 <= i < es.len(),
    ensures
        entries_model(es.update(i, p)) =~= entries_model(es).update(i, (p.0@, p.1@)),
{
    lemma_entries_model_props(es);
    lemma_entries_model_props(es.update(i, p));
}

/// The model of an extended entry list is the extended model.
proof fn lemma_entries_model_push(es: Seq<(String, Value)>, p: (String, Value))
    ensures
        entries_model(es.push(p)) =~= entries_model(es).push((p.0@, p.1@)),
{
    lemma_entries_model_props(es);
    lemma_entries_model_props(es.push(p));
}

/// The model of an extended value list is the extended model.
proof fn lemma_seq_model_push(vs: Seq<Value>, v: Value)
    ensures
        seq_model(vs.push(v)) =~= seq_model(vs).push(v@),
{
    lemma_seq_model_props(vs);
    lemma_seq_model_props(vs.push(v));
}

/// One value from the token stream, exactly as the reference parser assigns
/// it at the cursor's position.
fn parse_value(t: &mut Tokenizer) -> (r: Result<Value, Error>)
    requires
        old(t).wf(),
    ensures
        final(t).wf(),
        final(t).input() == old(t).input(),
        old(t).pos() <= final(t).pos(),
        ({
            match spec_parse_value(old(t).input(), old(t).pos()) {
                Ok(vm) => {
                    &&& r matches Ok(v) && v@ == vm.0 && value_wf(v)
                    &&& final(t).pos() == vm.1
                }
                Err(e) => r == Err::<Value, Error>(e),
            }
        }),
    decreases old(t).input().len() - old(t).pos(), 3int,
{
    let tok = match t.next_token() {
        Err(e) => {
            return Err(e);
        }
        Ok(tok) => tok,
    };
    parse_value_from(t, tok)
}

/// The value whose first, already consumed token is `tok`.
fn parse_value_from(t: &mut Tokenizer, tok: Token) -> (r: Result<Value, Error>)
    requires
        old(t).wf(),
    ensures
        final(t).wf(),
        final(t).input() == old(t).input(),
        old(t).pos() <= final(t).pos(),
        ({
            match spec_parse_value_from(old(t).input(), tok@, old(t).pos()) {
                Ok(vm) => {
                    &&& r matches Ok(v) && v@ == vm.0 && value_wf(v)
                    &&& final(t).pos() == vm.1
                }
                Err(e) => r == Err::<Value, Error>(e),
            }
        }),
    decreases old(t).input().len() - old(t).pos(), 2int,
{
    match tok {
        Token::Null => Ok(Value::Null),
        Token::True => Ok(Value::Boolean(true)),
        Token::False => Ok(Value::Boolean(false)),
        Token::String(text) => Ok(Value::String(text)),
        Token::Number(text) => Ok(Value::Number(text)),
        Token::ArrayOpen => parse_array(t),
        Token::ObjectOpen => parse_object(t),
        _ => Err(Error::UnexpectedToken),
    }
}

/// An array, after its `[` has been consumed.
#[verifier::rlimit(100)]
fn parse_array(t: &mut Tokenizer) -> (r: Result<Value, Error>)
    requires
        old(t).wf(),
    ensures
        final(t).wf(),
        final(t).input() == old(t).input(),
        old(t).pos() <= final(t).pos(),
        ({
            match spec_parse_array(old(t).input(), old(t).pos()) {
                Ok(vm) => {
                    &&& r matches Ok(v) && v@ == vm.0 && value_wf(v)
                    &&& final(t).pos() == vm.1
                }
                Err(e) => r == Err::<Value, Error>(e),
            }
        }),
    decreases old(t).input().len() - old(t).pos(), 1int,
{
    let tok = match t.next_token() {
        Err(e) => {
            return Err(e);
        }
        Ok(tok) => tok,
    };
    match tok {
        Token::ArrayClose => {
            let vals: Vec<Value> = Vec::new();
            proof {
                assert(seq_model(vals@) =~= Seq::<ValueModel>::empty());
            }
            Ok(Value::Array(vals))
        }
        _ => {
            let v0 = match parse_value_from(t, tok) {
                Err(e) => {
                    return Err(e);
                }
                Ok(v) => v,
            };
            let mut vals: Vec<Value> = Vec::new();
            let ghost v0m = v0@;
            vals.push(v0);
            proof {
                lemma_seq_model_props(vals@);
                assert(seq_model(vals@) =~= seq![v0m]);
                assert(vals@[0] == v0);
                assert(seq_all_wf(vals@.drop_last()));
                assert(seq_all_wf(vals@));
            }
            parse_array_rest(t, vals)
        }
    }
}

/// The elements after the first one: `,` element ... `]`.
#[verifier::rlimit(100)]
fn parse_array_rest(t: &mut Tokenizer, vals: Vec<Value>) -> (r: Result<Value, Error>)
    requires
        old(t).wf(),
        seq_all_wf(vals@),
    ensures
        final(t).wf(),
        final(t).input() == old(t).input(),
        old(t).pos() <= final(t).pos(),
        ({
            match spec_parse_array_rest(old(t).input(), old(t).pos(), seq_model(vals@)) {
                Ok(vm) => {
                    &&& r matches Ok(v) && v@ == vm.0 && value_wf(v)
                    &&& final(t).pos() == vm.1
                }
                Err(e) => r == Err::<Value, Error>(e),
            }
        }),
    decreases old(t).input().len() - old(t).pos(), 0int,
{
    let mut vals = vals;
    let tok = match t.next_token() {
        Err(e) => {
            return Err(e);
        }
        Ok(tok) => tok,
    };
    match tok {
        Token::ArrayClose => Ok(Value::Array(vals)),
        Token::Comma => {
            let v = match parse_value(t) {
                Err(e) => {
                    return Err(e);
                }
                Ok(v) => v,
            };
            proof {
                lemma_seq_model_push(vals@, v);
                assert(vals@.push(v).drop_last() =~= vals@);
            }
            vals.push(v);
            parse_array_rest(t, vals)
        }
        _ => Err(Error::UnexpectedToken),
    }
}

/// An object, after its `{` has been consumed.
#[verifier::rlimit(100)]
fn parse_object(t: &mut Tokenizer) -> (r: Result<Value, Error>)
    requires
        old(t).wf(),
    ensures
        final(t).wf(),
        final(t).input() == old(t).input(),
        old(t).pos() <= final(t).pos(),
        ({
            match spec_parse_object(old(t).input(), old(t).pos()) {
                Ok(vm) => {
                    &&& r matches Ok(v) && v@ == vm.0 && value_wf(v)
                    &&& final(t).pos() == vm.1
                }
                Err(e) => r == Err::<Value, Error>(e),
            }
        }),
    decreases old(t).input().len() - old(t).pos(), 1int,
{
    let tok = match t.next_token() {
        Err(e) => {
            return Err(e);
        }
        Ok(tok) => tok,
    };
    match tok {
        Token::ObjectClose => {
            let es: Vec<(String, Value)> = Vec::new();
            proof {
                assert(entries_model(es@) =~= Seq::<(Seq<char>, ValueModel)>::empty());
            }
            Ok(Value::Object(es))
        }
        Token::String(key) => {
            let es: Vec<(String, Value)> = Vec::new();
            proof {
                assert(entries_model(es@) =~= Seq::<(Seq<char>, ValueModel)>::empty());
            }
            parse_members(t, key, es)
        }
        _ => Err(Error::UnexpectedToken),
    }
}

/// The members after a key: `:` value, then `}` or `,` and the next key.
#[verifier::rlimit(100)]
fn parse_members(t: &mut Tokenizer, key: String, es: Vec<(String, Value)>) -> (r: Result<
    Value,
    Error,
>)
    requires
        old(t).wf(),
        entries_unique(es@),
        entries_all_wf(es@),
    ensures
        final(t).wf(),
        final(t).input() == old(t).input(),
        old(t).pos() <= final(t).pos(),
        ({
            match spec_parse_members(
                old(t).input(),
                old(t).pos(),
                key@,
                entries_map(entries_model(es@)),
            ) {
                Ok(vm) => {
                    &&& r matches Ok(v) && v@ == vm.0 && value_wf(v)
                    &&& final(t).pos() == vm.1
                }
                Err(e) => r == Err::<Value, Error>(e),
            }
        }),
    decreases old(t).input().len() - old(t).pos(), 0int,
{
    let mut es = es;
    let tok = match t.next_token() {
        Err(e) => {
            return Err(e);
        }
        Ok(tok) => tok,
    };
    match tok {
        Token::Colon => {}
        _ => {
            return Err(Error::UnexpectedToken);
        }
    }
    let v = match parse_value(t) {
        Err(e) => {
            return Err(e);
        }
        Ok(v) => v,
    };
    obj_insert(&mut es, key, v);
    let tok2 = match t.next_token() {
        Err(e) => {
            return Err(e);
        }
        Ok(tok2) => tok2,
    };
    match tok2 {
        Token::ObjectClose => Ok(Value::Object(es)),
        Token::Comma => {
            let tok3 = match t.next_token() {
                Err(e) => {
                    return Err(e);
                }
                Ok(tok3) => tok3,
            };
            match tok3 {
                Token::String(key2) => parse_members(t, key2, es),
                _ => Err(Error::UnexpectedToken),
            }
        }
        _ => Err(Error::UnexpectedToken),
    }
}

/// Reads the document: exactly the value or the error that the reference
/// grammar assigns to the input, and never a panic.  The whole input must be
/// one JSON value with nothing but whitespace around it.
///
/// Parsing descends by native recursion, so the call depth grows with the
/// document's nesting depth: a document nested deeper than the call stack
/// allows exhausts it, as any deep recursion does.
pub fn parse(json: &str) -> (r: Result<Value, Error>)
    ensures
        result_model(r) == spec_parse(json@),
        r matches Ok(v) ==> value_wf(v),
{
    let mut t = Tokenizer::new(json);
    let v = match parse_value(&mut t) {
        Err(e) => {
            return Err(e);
        }
        Ok(v) => v,
    };
    match t.next_token() {
        Err(e) => {
            match e {
                Error::UnexpectedEndOfInput => Ok(v),
                _ => Err(e),
            }
        }
        Ok(_) => Err(Error::UnexpectedToken),
    }
}

// ---------------------------------------------------------------------------
// Laws of the parser, stated once and for all inputs.
// ---------------------------------------------------------------------------

/// Parsing is deterministic: any two results that `parse`'s contract admits
/// for the same input text carry structurally equal values (or equal errors).
pub proof fn lemma_parse_deterministic(
    s: Seq<char>,
    r1: Result<Value, Error>,
    r2: Result<Value, Error>,
)
    requires
        result_model(r1) == spec_parse(s),
        result_model(r2) == spec_parse(s),
    ensures
        result_model(r1) == result_model(r2),
{
}

/// The empty document is rejected with the error naming a premature end.
pub proof fn lemma_parse_empty()
    ensures
        spec_parse(Seq::<char>::empty()) == Err::<ValueModel, Error>(Error::UnexpectedEndOfInput),
{
    assert(skip_ws(Seq::<char>::empty(), 0) == 0);
}

/// Each of the three keyword documents parses to exactly its value and to
/// nothing else.
pub proof fn lemma_parse_literals()
    ensures
        spec_parse("null"@) == Ok::<ValueModel, Error>(ValueModel::Null),
        spec_parse("true"@) == Ok::<ValueModel, Error>(ValueModel::Boolean(true)),
        spec_parse("false"@) == Ok::<ValueModel, Error>(ValueModel::Boolean(false)),
{
    reveal_strlit("null");
    reveal_strlit("true");
    reveal_strlit("false");
    assert(skip_ws("null"@, 0) == 0);
    assert(spec_next_token("null"@, 0) == Ok::<(TokenModel, int), Error>((TokenModel::Null, 4)));
    assert(skip_ws("null"@, 4) == 4);
    assert(spec_next_token("null"@, 4) == Err::<(TokenModel, int), Error>(
        Error::UnexpectedEndOfInput,
    ));
    assert(skip_ws("true"@, 0) == 0);
    assert(spec_next_token("true"@, 0) == Ok::<(TokenModel, int), Error>((TokenModel::True, 4)));
    assert(skip_ws("true"@, 4) == 4);
    assert(spec_next_token("true"@, 4) == Err::<(TokenModel, int), Error>(
        Error::UnexpectedEndOfInput,
    ));
    assert(skip_ws("false"@, 0) == 0);
    assert(spec_next_token("false"@, 0) == Ok::<(TokenModel, int), Error>((TokenModel::False, 5)));
    assert(skip_ws("false"@, 5) == 5);
    assert(spec_next_token("false"@, 5) == Err::<(TokenModel, int), Error>(
        Error::UnexpectedEndOfInput,
    ));
}

/// A document that is exactly one numeral of JSON's numeric grammar parses
/// to the numeric value carrying that numeral's text, verbatim.
pub proof fn lemma_parse_number_literal(s: Seq<char>)
    requires
        s.len() > 0,
        s[0] == '-' || is_digit(s[0]),
        lex_number_end(s, 0) == Some(s.len() as int),
    ensures
        spec_parse(s) == Ok::<ValueModel, Error>(ValueModel::Number(s)),
{
    assert(!is_ws(s[0]));
    assert(skip_ws(s, 0) == 0);
    assert(s.subrange(0, s.len() as int) =~= s);
    assert(spec_next_token(s, 0) == Ok::<(TokenModel, int), Error>(
        (TokenModel::Number(s), s.len() as int),
    ));
    assert(skip_ws(s, s.len() as int) == s.len());
    assert(spec_next_token(s, s.len() as int) == Err::<(TokenModel, int), Error>(
        Error::UnexpectedEndOfInput,
    ));
}

/// A string document holding one single-character escape parses to the
/// one-character string the escape names: `\"` to `"`, `\\` to `\`,
/// `\/` to `/`, `\b` to backspace, `\f` to form feed, `\n` to line
/// feed, `\r` to carriage return, `\t` to tab.
pub proof fn lemma_parse_escape(c: char, d: char)
    requires
        simple_escape(c) == Some(d),
    ensures
        spec_parse(seq!['"', '\\', c, '"']) == Ok::<ValueModel, Error>(
            ValueModel::String(seq![d]),
        ),
{
    let s = seq!['"', '\\', c, '"'];
    assert(s.len() == 4 && s[0] == '"' && s[1] == '\\' && s[2] == c && s[3] == '"');
    assert(skip_ws(s, 0) == 0);
    assert(lex_string_body(s, 3) == Some((Seq::<char>::empty(), 4int)));
    assert(lex_string_body(s, 1) == Some((seq![d] + Seq::<char>::empty(), 4int)));
    assert(seq![d] + Seq::<char>::empty() =~= seq![d]);
    assert(spec_next_token(s, 0) == Ok::<(TokenModel, int), Error>(
        (TokenModel::String(seq![d]), 4),
    ));
    assert(skip_ws(s, 4) == 4);
    assert(spec_next_token(s, 4) == Err::<(TokenModel, int), Error>(Error::UnexpectedEndOfInput));
}

/// The source text of a string literal's content made of the given escape
/// characters: one backslash before each of them.
pub open spec fn escapes_text(cs: Seq<char>) -> Seq<char>
    decreases cs.len(),
{
    if cs.len() == 0 {
        Seq::empty()
    } else {
        seq!['\\', cs[0]] + escapes_text(cs.drop_first())
    }
}

/// What those escapes decode to, character by character (one that decodes
/// to nothing is skipped; the law below admits none such).
pub open spec fn escapes_decoded(cs: Seq<char>) -> Seq<char>
    decreases cs.len(),
{
    if cs.len() == 0 {
        Seq::empty()
    } else {
        match simple_escape(cs[0]) {
            Some(d) => seq![d] + escapes_decoded(cs.drop_first()),
            None => escapes_decoded(cs.drop_first()),
        }
    }
}

/// The length and the characters of `escapes_text`: a backslash at every
/// even offset, the escape characters at the odd ones.
proof fn lemma_escapes_text_at(cs: Seq<char>)
    ensures
        escapes_text(cs).len() == 2 * cs.len(),
        forall|m: int|
            0 <= m < 2 * cs.len() ==> #[trigger] escapes_text(cs)[m] == (if m % 2 == 0 {
                '\\'
            } else {
                cs[m / 2]
            }),
    decreases cs.len(),
{
    if cs.len() > 0 {
        lemma_escapes_text_at(cs.drop_first());
        assert forall|m: int|
            0 <= m < 2 * cs.len() implies #[trigger] escapes_text(cs)[m] == (if m % 2 == 0 {
                '\\'
            } else {
                cs[m / 2]
            }) by {
            if m >= 2 {
                assert(escapes_text(cs)[m] == escapes_text(cs.drop_first())[m - 2]);
                if m % 2 == 1 {
                    assert(cs.drop_first()[(m - 2) / 2] == cs[m / 2]);
                }
            }
        }
    }
}

/// The string body made of single-character escapes up to the closing quote
/// decodes to exactly the characters the escapes name.
proof fn lemma_string_body_escape_run(s: Seq<char>, i: int, cs: Seq<char>)
    requires
        0 <= i,
        s.len() == i + 2 * cs.len() + 1,
        s[s.len() - 1] == '"',
        forall|k: int| 0 <= k < cs.len() ==> simple_escape(#[trigger] cs[k]) is Some,
        forall|j: int|
            i <= j < s.len() - 1 ==> #[trigger] s[j] == (if (j - i) % 2 == 0 {
                '\\'
            } else {
                cs[(j - i) / 2]
            }),
    ensures
        lex_string_body(s, i) == Some((escapes_decoded(cs), s.len() as int)),
    decreases cs.len(),
{
    if cs.len() == 0 {
        assert(s[i] == '"');
    } else {
        assert(s[i] == '\\');
        assert(s[i + 1] == cs[0]);
        assert(simple_escape(cs[0]) is Some);
        assert(cs[0] != 'u');
        assert forall|j: int|
            i + 2 <= j < s.len() - 1 implies #[trigger] s[j] == (if (j - (i + 2)) % 2 == 0 {
                '\\'
            } else {
                cs.drop_first()[(j - (i + 2)) / 2]
            }) by {
            assert((j - (i + 2)) % 2 == (j - i) % 2);
            if (j - i) % 2 != 0 {
                assert((j - (i + 2)) / 2 == (j - i) / 2 - 1);
                assert(cs.drop_first()[(j - i) / 2 - 1] == cs[(j - i) / 2]);
            }
        }
        lemma_string_body_escape_run(s, i + 2, cs.drop_first());
    }
}

/// A string document whose content is any run of the single-character
/// escapes (each of `\" \\ \/ \b \f \n \r \t`, in any number and order)
/// parses to the string of exactly the characters they name, in order.
pub proof fn lemma_parse_escape_run(cs: Seq<char>)
    requires
        forall|k: int| 0 <= k < cs.len() ==> simple_escape(#[trigger] cs[k]) is Some,
    ensures
        spec_parse(seq!['"'] + escapes_text(cs) + seq!['"']) == Ok::<ValueModel, Error>(
            ValueModel::String(escapes_decoded(cs)),
        ),
{
    let s = seq!['"'] + escapes_text(cs) + seq!['"'];
    lemma_escapes_text_at(cs);
    assert(s.len() == 2 * cs.len() + 2);
    assert(s[0] == '"');
    assert(s[s.len() - 1] == '"');
    assert(skip_ws(s, 0) == 0);
    assert forall|j: int|
        1 <= j < s.len() - 1 implies #[trigger] s[j] == (if (j - 1) % 2 == 0 {
            '\\'
        } else {
            cs[(j - 1) / 2]
        }) by {
        assert(s[j] == escapes_text(cs)[j - 1]);
    }
    lemma_string_body_escape_run(s, 1, cs);
    assert(spec_next_token(s, 0) == Ok::<(TokenModel, int), Error>(
        (TokenModel::String(escapes_decoded(cs)), s.len() as int),
    ));
    assert(skip_ws(s, s.len() as int) == s.len());
    assert(spec_next_token(s, s.len() as int) == Err::<(TokenModel, int), Error>(
        Error::UnexpectedEndOfInput,
    ));
}

} // verus!
