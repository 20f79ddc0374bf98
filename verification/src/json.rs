//! Structural JSON values and a verified codec for their compact text form.
//!
//! A [`Value`] is the structural representation a storable type maps itself
//! to: null, a boolean, a string, an array, or an object whose fields keep
//! declaration order. [`enc`] is the mathematical definition of the compact
//! JSON text of a value; [`encode`] produces exactly that text, and
//! [`decode`] recovers the value, with the round trip proved in
//! [`lemma_decode_encode`].

use vstd::prelude::*;

verus! {

use vstd::string::*;

/// A structural JSON value. Object fields keep their declaration order.
#[derive(Debug, PartialEq)]
pub enum Value {
    Null,
    Bool(bool),
    Str(String),
    Arr(Vec<Value>),
    Obj(Vec<(String, Value)>),
}

/// The mathematical model of a [`Value`]: strings become sequences of
/// characters, vectors become sequences.
pub enum SpecVal {
    Null,
    Bool(bool),
    Str(Seq<char>),
    Arr(Seq<SpecVal>),
    Obj(Seq<(Seq<char>, SpecVal)>),
}

impl Value {
    /// The model of this value.
    pub open spec fn model(self) -> SpecVal
        decreases self,
    {
        match self {
            Value::Null => SpecVal::Null,
            Value::Bool(b) => SpecVal::Bool(b),
            Value::Str(s) => SpecVal::Str(s@),
            Value::Arr(_) => SpecVal::Arr(model_list(self->Arr_0@)),
            Value::Obj(_) => SpecVal::Obj(model_fields(self->Obj_0@)),
        }
    }
}

/// The models of the items of an array, element by element.
pub open spec fn model_list(xs: Seq<Value>) -> Seq<SpecVal>
    decreases xs,
{
    Seq::new(
        xs.len(),
        |i: int| if 0 <= i < xs.len() {
            xs[i].model()
        } else {
            SpecVal::Null
        },
    )
}

/// The models of the fields of an object, field by field.
pub open spec fn model_fields(fs: Seq<(String, Value)>) -> Seq<(Seq<char>, SpecVal)>
    decreases fs,
{
    Seq::new(
        fs.len(),
        |i: int| if 0 <= i < fs.len() {
            (fs[i].0@, fs[i].1.model())
        } else {
            (Seq::<char>::empty(), SpecVal::Null)
        },
    )
}

/// Escape of one character inside a JSON string: quotes and backslashes get
/// a backslash prefix, every other character stands for itself.
pub open spec fn esc_char(c: char) -> Seq<char> {
    if c == '"' || c == '\\' {
        seq!['\\', c]
    } else {
        seq![c]
    }
}

/// Escape of the characters of `s` from position `i` on.
pub open spec fn esc_from(s: Seq<char>, i: int) -> Seq<char>
    decreases s.len() - i,
{
    if i < 0 || i >= s.len() {
        Seq::empty()
    } else {
        esc_char(s[i]) + esc_from(s, i + 1)
    }
}

/// Escape of a whole string.
pub open spec fn esc(s: Seq<char>) -> Seq<char> {
    esc_from(s, 0)
}

/// JSON text of a string: the escaped characters between double quotes.
pub open spec fn enc_str(s: Seq<char>) -> Seq<char> {
    seq!['"'] + esc(s) + seq!['"']
}

/// Compact JSON text of a value.
pub open spec fn enc(v: SpecVal) -> Seq<char>
    decreases v,
{
    match v {
        SpecVal::Null => seq!['n', 'u', 'l', 'l'],
        SpecVal::Bool(b) => if b {
            seq!['t', 'r', 'u', 'e']
        } else {
            seq!['f', 'a', 'l', 's', 'e']
        },
        SpecVal::Str(s) => enc_str(s),
        SpecVal::Arr(xs) => seq!['['] + enc_items(xs),
        SpecVal::Obj(fs) => seq!['{'] + enc_fields(fs),
    }
}

/// Text of the items of an array after the opening bracket, closing bracket
/// included: `]` for no items, otherwise the items separated by commas.
pub open spec fn enc_items(xs: Seq<SpecVal>) -> Seq<char>
    decreases xs,
{
    if xs.len() == 0 {
        seq![']']
    } else {
        enc(xs[0]) + (if xs.len() == 1 {
            seq![']']
        } else {
            seq![','] + enc_items(xs.drop_first())
        })
    }
}

/// Text of the fields of an object after the opening brace, closing brace
/// included: `}` for no fields, otherwise `"key":value` pairs separated by
/// commas.
pub open spec fn enc_fields(fs: Seq<(Seq<char>, SpecVal)>) -> Seq<char>
    decreases fs,
{
    if fs.len() == 0 {
        seq!['}']
    } else {
        enc_str(fs[0].0) + seq![':'] + enc(fs[0].1) + (if fs.len() == 1 {
            seq!['}']
        } else {
            seq![','] + enc_fields(fs.drop_first())
        })
    }
}

/// Parse of the body of a JSON string, starting just after the opening
/// quote: the unescaped characters up to the closing quote, and the
/// position just after that quote.
pub open spec fn parse_str_body(s: Seq<char>, i: int) -> Option<(Seq<char>, int)>
    decreases s.len() - i,
{
    if i < 0 || i >= s.len() {
        None
    } else if s[i] == '"' {
        Some((Seq::empty(), i + 1))
    } else if s[i] == '\\' {
        if i + 1 < s.len() && (s[i + 1] == '"' || s[i + 1] == '\\') {
            match parse_str_body(s, i + 2) {
                Some((t, j)) => Some((seq![s[i + 1]] + t, j)),
                None => None,
            }
        } else {
            None
        }
    } else {
        match parse_str_body(s, i + 1) {
            Some((t, j)) => Some((seq![s[i]] + t, j)),
            None => None,
        }
    }
}

/// Parse of one JSON value starting at position `i`: the value and the
/// position just after its text. `None` on malformed input.
pub open spec fn parse_val(s: Seq<char>, i: int) -> Option<(SpecVal, int)>
    decreases s.len() - i, 1int,
{
    if i < 0 || i >= s.len() {
        None
    } else if s[i] == 'n' {
        if i + 4 <= s.len() && s[i + 1] == 'u' && s[i + 2] == 'l' && s[i + 3] == 'l' {
            Some((SpecVal::Null, i + 4))
        } else {
            None
        }
    } else if s[i] == 't' {
        if i + 4 <= s.len() && s[i + 1] == 'r' && s[i + 2] == 'u' && s[i + 3] == 'e' {
            Some((SpecVal::Bool(true), i + 4))
        } else {
            None
        }
    } else if s[i] == 'f' {
        if i + 5 <= s.len() && s[i + 1] == 'a' && s[i + 2] == 'l' && s[i + 3] == 's' && s[i + 4]
            == 'e' {
            Some((SpecVal::Bool(false), i + 5))
        } else {
            None
        }
    } else if s[i] == '"' {
        match parse_str_body(s, i + 1) {
            Some((t, j)) => Some((SpecVal::Str(t), j)),
            None => None,
        }
    } else if s[i] == '[' {
        if i + 1 < s.len() && s[i + 1] == ']' {
            Some((SpecVal::Arr(Seq::empty()), i + 2))
        } else {
            match parse_items(s, i + 1) {
                Some((xs, j)) => Some((SpecVal::Arr(xs), j)),
                None => None,
            }
        }
    } else if s[i] == '{' {
        if i + 1 < s.len() && s[i + 1] == '}' {
            Some((SpecVal::Obj(Seq::empty()), i + 2))
        } else {
            match parse_fields(s, i + 1) {
                Some((fs, j)) => Some((SpecVal::Obj(fs), j)),
                None => None,
            }
        }
    } else {
        None
    }
}

/// Parse of a nonempty run of array items starting at position `i`,
/// consuming the closing bracket.
pub open spec fn parse_items(s: Seq<char>, i: int) -> Option<(Seq<SpecVal>, int)>
    decreases s.len() - i, 2int,
{
    match parse_val(s, i) {
        Some((v, k)) => if k <= i || k >= s.len() {
            None
        } else if s[k] == ',' {
            match parse_items(s, k + 1) {
                Some((rest, j)) => Some((seq![v] + rest, j)),
                None => None,
            }
        } else if s[k] == ']' {
            Some((seq![v], k + 1))
        } else {
            None
        },
        None => None,
    }
}

/// Parse of a nonempty run of object fields starting at position `i`,
/// consuming the closing brace.
pub open spec fn parse_fields(s: Seq<char>, i: int) -> Option<
    (Seq<(Seq<char>, SpecVal)>, int),
>
    decreases s.len() - i, 2int,
{
    if i < 0 || i >= s.len() || s[i] != '"' {
        None
    } else {
        match parse_str_body(s, i + 1) {
            Some((key, j)) => if j <= i + 1 || j >= s.len() || s[j] != ':' {
                None
            } else {
                match parse_val(s, j + 1) {
                    Some((v, k)) => if k <= j + 1 || k >= s.len() {
                        None
                    } else if s[k] == ',' {
                        match parse_fields(s, k + 1) {
                            Some((rest, m2)) => Some((seq![(key, v)] + rest, m2)),
                            None => None,
                        }
                    } else if s[k] == '}' {
                        Some((seq![(key, v)], k + 1))
                    } else {
                        None
                    },
                    None => None,
                }
            },
            None => None,
        }
    }
}

/// Parse of a whole text as one JSON value: the text must hold exactly one
/// value and nothing after it.
pub open spec fn spec_decode(s: Seq<char>) -> Option<SpecVal> {
    match parse_val(s, 0) {
        Some((v, j)) => if j == s.len() {
            Some(v)
        } else {
            None
        },
        None => None,
    }
}

/// A prefix of `s` starting at `i` that equals `a + b` splits into the two
/// parts.
proof fn lemma_split_at(s: Seq<char>, i: int, a: Seq<char>, b: Seq<char>)
    requires
        0 <= i,
        i + a.len() + b.len() <= s.len(),
        s.subrange(i, i + a.len() + b.len()) == a + b,
    ensures
        s.subrange(i, i + a.len()) == a,
        s.subrange(i + a.len(), i + a.len() + b.len()) == b,
{
    assert forall|k: int| 0 <= k < a.len() implies s.subrange(i, i + a.len())[k] == a[k] by {
        assert(s.subrange(i, i + a.len() + b.len())[k] == s[i + k]);
        assert(s.subrange(i, i + a.len())[k] == s[i + k]);
        assert((a + b)[k] == a[k]);
    }
    assert(s.subrange(i, i + a.len()) =~= a);
    assert forall|k: int| 0 <= k < b.len() implies s.subrange(
        i + a.len(),
        i + a.len() + b.len(),
    )[k] == b[k] by {
        assert(s.subrange(i, i + a.len() + b.len())[a.len() + k] == s[i + a.len() + k]);
        assert(s.subrange(i + a.len(), i + a.len() + b.len())[k] == s[i + a.len() + k]);
        assert((a + b)[a.len() + k] == b[k]);
    }
    assert(s.subrange(i + a.len(), i + a.len() + b.len()) =~= b);
}

/// One character of a matching prefix.
proof fn lemma_char_at(s: Seq<char>, i: int, a: Seq<char>, k: int)
    requires
        0 <= i,
        i + a.len() <= s.len(),
        s.subrange(i, i + a.len()) == a,
        0 <= k < a.len(),
    ensures
        s[i + k] == a[k],
{
    assert(s.subrange(i, i + a.len())[k] == s[i + k]);
}

/// The text of a value is at least two characters long and starts with a
/// character that identifies its kind — never a separator or a closer.
proof fn lemma_enc_shape(v: SpecVal)
    ensures
        enc(v).len() >= 2,
        enc(v)[0] == 'n' || enc(v)[0] == 't' || enc(v)[0] == 'f' || enc(v)[0] == '"' || enc(
            v,
        )[0] == '[' || enc(v)[0] == '{',
{
    match v {
        SpecVal::Null => {}
        SpecVal::Bool(_) => {}
        SpecVal::Str(t) => {
            assert(enc(v)[0] == '"');
        }
        SpecVal::Arr(xs) => {
            assert(enc_items(xs).len() >= 1);
            assert(enc(v)[0] == '[');
        }
        SpecVal::Obj(fs) => {
            assert(enc_fields(fs).len() >= 1);
            assert(enc(v)[0] == '{');
        }
    }
}

/// Parsing recovers an escaped string: if the text from `i` on starts with
/// the escape of `t` from position `p` followed by a closing quote, the
/// string parser returns exactly the remaining characters of `t`.
proof fn lemma_parse_esc(t: Seq<char>, p: int, s: Seq<char>, i: int)
    requires
        0 <= p <= t.len(),
        0 <= i,
        i + esc_from(t, p).len() + 1 <= s.len(),
        s.subrange(i, i + esc_from(t, p).len() + 1) == esc_from(t, p) + seq!['"'],
    ensures
        parse_str_body(s, i) == Some((t.skip(p), i + esc_from(t, p).len() + 1)),
    decreases t.len() - p,
{
    if p == t.len() {
        assert(esc_from(t, p).len() == 0);
        lemma_char_at(s, i, esc_from(t, p) + seq!['"'], 0);
        assert(s[i] == '"');
        assert(t.skip(p) =~= Seq::<char>::empty());
    } else {
        let c = t[p];
        let e = esc_char(c);
        let rest = esc_from(t, p + 1);
        assert(esc_from(t, p) == e + rest);
        assert((e + rest + seq!['"']) =~= e + (rest + seq!['"']));
        lemma_split_at(s, i, e, rest + seq!['"']);
        if c == '"' || c == '\\' {
            assert(e == seq!['\\', c]);
            lemma_char_at(s, i, e, 0);
            lemma_char_at(s, i, e, 1);
            assert(s[i] == '\\');
            assert(s[i + 1] == c);
            lemma_parse_esc(t, p + 1, s, i + 2);
            assert(parse_str_body(s, i + 2) == Some(
                (t.skip(p + 1), i + 2 + rest.len() + 1),
            ));
            assert(seq![s[i + 1]] + t.skip(p + 1) =~= t.skip(p));
            assert(i + 2 + rest.len() + 1 == i + esc_from(t, p).len() + 1);
        } else {
            assert(e == seq![c]);
            lemma_char_at(s, i, e, 0);
            assert(s[i] == c);
            lemma_parse_esc(t, p + 1, s, i + 1);
            assert(seq![s[i]] + t.skip(p + 1) =~= t.skip(p));
        }
    }
}

/// Parsing recovers an encoded value: if the text from `i` on starts with
/// the encoding of `v`, the value parser returns `v` and stops right after
/// it, whatever follows.
proof fn lemma_parse_enc(v: SpecVal, s: Seq<char>, i: int)
    requires
        0 <= i,
        i + enc(v).len() <= s.len(),
        s.subrange(i, i + enc(v).len()) == enc(v),
    ensures
        parse_val(s, i) == Some((v, i + enc(v).len())),
    decreases v, 1int,
{
    lemma_enc_shape(v);
    match v {
        SpecVal::Null => {
            lemma_char_at(s, i, enc(v), 0);
            lemma_char_at(s, i, enc(v), 1);
            lemma_char_at(s, i, enc(v), 2);
            lemma_char_at(s, i, enc(v), 3);
        }
        SpecVal::Bool(b) => {
            lemma_char_at(s, i, enc(v), 0);
            lemma_char_at(s, i, enc(v), 1);
            lemma_char_at(s, i, enc(v), 2);
            lemma_char_at(s, i, enc(v), 3);
            if !b {
                lemma_char_at(s, i, enc(v), 4);
            }
        }
        SpecVal::Str(t) => {
            lemma_char_at(s, i, enc(v), 0);
            assert(enc(v) =~= seq!['"'] + (esc(t) + seq!['"']));
            lemma_split_at(s, i, seq!['"'], esc(t) + seq!['"']);
            lemma_parse_esc(t, 0, s, i + 1);
            assert(t.skip(0) =~= t);
        }
        SpecVal::Arr(xs) => {
            lemma_char_at(s, i, enc(v), 0);
            assert(s[i] == '[');
            lemma_split_at(s, i, seq!['['], enc_items(xs));
            if xs.len() == 0 {
                lemma_char_at(s, i + 1, enc_items(xs), 0);
                assert(s[i + 1] == ']');
                assert(xs =~= Seq::<SpecVal>::empty());
            } else {
                lemma_enc_shape(xs[0]);
                assert(enc_items(xs)[0] == enc(xs[0])[0]);
                lemma_char_at(s, i + 1, enc_items(xs), 0);
                assert(s[i + 1] == enc_items(xs)[0]);
                assert(s[i + 1] != ']');
                lemma_parse_enc_items(xs, s, i + 1);
            }
        }
        SpecVal::Obj(fs) => {
            lemma_char_at(s, i, enc(v), 0);
            assert(s[i] == '{');
            lemma_split_at(s, i, seq!['{'], enc_fields(fs));
            if fs.len() == 0 {
                lemma_char_at(s, i + 1, enc_fields(fs), 0);
                assert(s[i + 1] == '}');
                assert(fs =~= Seq::<(Seq<char>, SpecVal)>::empty());
            } else {
                assert(enc_fields(fs)[0] == enc_str(fs[0].0)[0]);
                lemma_char_at(s, i + 1, enc_fields(fs), 0);
                assert(s[i + 1] == '"');
                lemma_parse_enc_fields(fs, s, i + 1);
            }
        }
    }
}

/// Parsing recovers an encoded run of array items, closing bracket
/// included.
proof fn lemma_parse_enc_items(xs: Seq<SpecVal>, s: Seq<char>, i: int)
    requires
        xs.len() >= 1,
        0 <= i,
        i + enc_items(xs).len() <= s.len(),
        s.subrange(i, i + enc_items(xs).len()) == enc_items(xs),
    ensures
        parse_items(s, i) == Some((xs, i + enc_items(xs).len())),
    decreases xs, 2int,
{
    lemma_enc_shape(xs[0]);
    let head = enc(xs[0]);
    let k = i + head.len();
    if xs.len() == 1 {
        assert(enc_items(xs) == head + seq![']']);
        lemma_split_at(s, i, head, seq![']']);
        lemma_parse_enc(xs[0], s, i);
        lemma_char_at(s, k, seq![']'], 0);
        assert(s[k] == ']');
        assert(seq![xs[0]] =~= xs);
    } else {
        let tail = enc_items(xs.drop_first());
        assert(enc_items(xs) == head + (seq![','] + tail));
        lemma_split_at(s, i, head, seq![','] + tail);
        lemma_parse_enc(xs[0], s, i);
        lemma_char_at(s, k, seq![','] + tail, 0);
        assert(s[k] == ',');
        lemma_split_at(s, k, seq![','], tail);
        lemma_parse_enc_items(xs.drop_first(), s, k + 1);
        assert(seq![xs[0]] + xs.drop_first() =~= xs);
    }
}

/// Parsing recovers an encoded run of object fields, closing brace
/// included.
proof fn lemma_parse_enc_fields(fs: Seq<(Seq<char>, SpecVal)>, s: Seq<char>, i: int)
    requires
        fs.len() >= 1,
        0 <= i,
        i + enc_fields(fs).len() <= s.len(),
        s.subrange(i, i + enc_fields(fs).len()) == enc_fields(fs),
    ensures
        parse_fields(s, i) == Some((fs, i + enc_fields(fs).len())),
    decreases fs, 2int,
{
    let key = fs[0].0;
    let ks = enc_str(key);
    let hv = enc(fs[0].1);
    lemma_enc_shape(fs[0].1);
    let j = i + ks.len();
    let k = j + 1 + hv.len();
    let head = ks + seq![':'] + hv;
    if fs.len() == 1 {
        assert(enc_fields(fs) == head + seq!['}']);
    } else {
        assert(enc_fields(fs) == head + (seq![','] + enc_fields(fs.drop_first())));
    }
    let after = if fs.len() == 1 {
        seq!['}']
    } else {
        seq![','] + enc_fields(fs.drop_first())
    };
    assert(head + after =~= ks + (seq![':'] + (hv + after)));
    lemma_split_at(s, i, ks, seq![':'] + (hv + after));
    lemma_split_at(s, j, seq![':'], hv + after);
    lemma_split_at(s, j + 1, hv, after);
    lemma_char_at(s, i, ks, 0);
    assert(s[i] == '"');
    assert(ks =~= seq!['"'] + (esc(key) + seq!['"']));
    lemma_split_at(s, i, seq!['"'], esc(key) + seq!['"']);
    lemma_parse_esc(key, 0, s, i + 1);
    assert(key.skip(0) =~= key);
    assert(parse_str_body(s, i + 1) == Some((key, j)));
    lemma_char_at(s, j, seq![':'] + (hv + after), 0);
    assert(s[j] == ':');
    lemma_parse_enc(fs[0].1, s, j + 1);
    assert(parse_val(s, j + 1) == Some((fs[0].1, k)));
    if fs.len() == 1 {
        lemma_char_at(s, k, after, 0);
        assert(s[k] == '}');
        assert(seq![(key, fs[0].1)] =~= fs);
    } else {
        lemma_char_at(s, k, after, 0);
        assert(s[k] == ',');
        lemma_split_at(s, k, seq![','], enc_fields(fs.drop_first()));
        lemma_parse_enc_fields(fs.drop_first(), s, k + 1);
        assert(seq![(key, fs[0].1)] + fs.drop_first() =~= fs);
    }
}

/// Round trip: decoding the encoding of any value gives that value back.
pub proof fn lemma_decode_encode(v: SpecVal)
    ensures
        spec_decode(enc(v)) == Some(v),
{
    let s = enc(v);
    assert(s.subrange(0, s.len() as int) =~= s);
    lemma_parse_enc(v, s, 0);
}

/// Relies on `String::push` of std: appends the given character to the end
/// of the string.
#[verifier::external_body]
pub(crate) fn push_char(out: &mut String, c: char)
    ensures
        final(out)@ == old(out)@.push(c),
{
    out.push(c);
}

/// Appends the compact JSON text of `v` to `out`.
#[verifier::loop_isolation(false)]
#[verifier::rlimit(60)]
fn write_value(v: &Value, out: &mut String)
    ensures
        final(out)@ == old(out)@ + enc(v.model()),
    decreases v,
{
    match v {
        Value::Null => {
            proof {
                reveal_strlit("null");
            }
            out.append("null");
            assert(out@ =~= old(out)@ + enc(v.model()));
        }
        Value::Bool(b) => {
            proof {
                reveal_strlit("true");
                reveal_strlit("false");
            }
            if *b {
                out.append("true");
            } else {
                out.append("false");
            }
            assert(out@ =~= old(out)@ + enc(v.model()));
        }
        Value::Str(s) => {
            write_string(s.as_str(), out);
        }
        Value::Arr(xs) => {
            let ghost m = model_list(xs@);
            let ghost start = out@;
            push_char(out, '[');
            assert(out@ =~= start + seq!['[']);
            if xs.len() == 0 {
                push_char(out, ']');
                assert(out@ =~= start + enc(v.model()));
            } else {
                proof {
                    assert(m.skip(0) =~= m);
                    assert(out@ + enc_items(m) =~= start + enc(SpecVal::Arr(m)));
                }
                let n = xs.len();
                let mut i: usize = 0;
                while i < n
                    invariant
                        0 <= i <= n,
                        i < n ==> out@ + enc_items(m.skip(i as int)) == start + enc(
                            SpecVal::Arr(m),
                        ),
                        i == n ==> out@ == start + enc(SpecVal::Arr(m)),
                    decreases n - i,
                {
                    let ghost before = out@;
                    proof {
                        assert(decreases_to!(*v => v->Arr_0));
                        assert(decreases_to!(v->Arr_0 => v->Arr_0@));
                        assert(decreases_to!(v->Arr_0@ => v->Arr_0@[i as int]));
                    }
                    write_value(&xs[i], out);
                    assert(xs@[i as int].model() == m[i as int]);
                    if i + 1 == n {
                        push_char(out, ']');
                        assert(m.skip(i as int).len() == 1);
                        assert(m.skip(i as int)[0] == m[i as int]);
                        assert(enc_items(m.skip(i as int)) == enc(m[i as int]) + seq![']']);
                        assert(out@ =~= before + enc(m[i as int]) + seq![']']);
                        assert(out@ =~= start + enc(SpecVal::Arr(m)));
                    } else {
                        push_char(out, ',');
                        assert(m.skip(i as int).drop_first() =~= m.skip(i + 1));
                        assert(enc_items(m.skip(i as int)) == enc(m[i as int]) + (seq![',']
                            + enc_items(m.skip(i + 1))));
                        assert(out@ =~= before + enc(m[i as int]) + seq![',']);
                        assert(out@ + enc_items(m.skip(i + 1)) =~= start + enc(SpecVal::Arr(m)));
                    }
                    i = i + 1;
                }
            }
        }
        Value::Obj(fs) => {
            let ghost m = model_fields(fs@);
            let ghost start = out@;
            push_char(out, '{');
            assert(out@ =~= start + seq!['{']);
            if fs.len() == 0 {
                push_char(out, '}');
                assert(out@ =~= start + enc(v.model()));
            } else {
                proof {
                    assert(m.skip(0) =~= m);
                    assert(out@ + enc_fields(m) =~= start + enc(SpecVal::Obj(m)));
                }
                let n = fs.len();
                let mut i: usize = 0;
                while i < n
                    invariant
                        0 <= i <= n,
                        i < n ==> out@ + enc_fields(m.skip(i as int)) == start + enc(
                            SpecVal::Obj(m),
                        ),
                        i == n ==> out@ == start + enc(SpecVal::Obj(m)),
                    decreases n - i,
                {
                    let ghost before = out@;
                    write_string(fs[i].0.as_str(), out);
                    push_char(out, ':');
                    proof {
                        assert(decreases_to!(*v => v->Obj_0));
                        assert(decreases_to!(v->Obj_0 => v->Obj_0@));
                        assert(decreases_to!(v->Obj_0@ => v->Obj_0@[i as int]));
                        assert(decreases_to!(v->Obj_0@[i as int] => v->Obj_0@[i as int].1));
                    }
                    write_value(&fs[i].1, out);
                    assert(fs@[i as int].0@ == m[i as int].0);
                    assert(fs@[i as int].1.model() == m[i as int].1);
                    let ghost fld = enc_str(m[i as int].0) + seq![':'] + enc(m[i as int].1);
                    assert(out@ =~= before + fld);
                    if i + 1 == n {
                        push_char(out, '}');
                        assert(m.skip(i as int).len() == 1);
                        assert(m.skip(i as int)[0] == m[i as int]);
                        assert(enc_fields(m.skip(i as int)) == fld + seq!['}']);
                        assert(out@ =~= start + enc(SpecVal::Obj(m)));
                    } else {
                        push_char(out, ',');
                        assert(m.skip(i as int).drop_first() =~= m.skip(i + 1));
                        assert(enc_fields(m.skip(i as int)) == fld + (seq![','] + enc_fields(
                            m.skip(i + 1),
                        )));
                        assert(out@ + enc_fields(m.skip(i + 1)) =~= start + enc(SpecVal::Obj(m)));
                    }
                    i = i + 1;
                }
            }
        }
    }
}

/// Appends the JSON text of a string — escaped, between double quotes — to
/// `out`.
#[verifier::loop_isolation(false)]
fn write_string(s: &str, out: &mut String)
    ensures
        final(out)@ == old(out)@ + enc_str(s@),
{
    let ghost start = out@;
    push_char(out, '"');
    let n = s.unicode_len();
    let mut i: usize = 0;
    while i < n
        invariant
            0 <= i <= n,
            out@ + esc_from(s@, i as int) == start + seq!['"'] + esc(s@),
        decreases n - i,
    {
        let c = s.get_char(i);
        let ghost before = out@;
        if c == '"' || c == '\\' {
            push_char(out, '\\');
            push_char(out, c);
        } else {
            push_char(out, c);
        }
        assert(out@ =~= before + esc_char(s@[i as int]));
        assert(out@ + esc_from(s@, i + 1) =~= start + seq!['"'] + esc(s@));
        i = i + 1;
    }
    push_char(out, '"');
    assert(out@ =~= start + enc_str(s@));
}

/// Encoding is injective: two values with the same compact JSON text are
/// the same value.
pub proof fn lemma_enc_injective(a: SpecVal, b: SpecVal)
    requires
        enc(a) == enc(b),
    ensures
        a == b,
{
    lemma_decode_encode(a);
    lemma_decode_encode(b);
}

/// Failure to parse a text as JSON: malformed syntax or trailing
/// characters.
#[derive(Clone, Copy, Debug, PartialEq, Eq)]
pub struct ParseError;

/// The characters of a string slice, in order.
#[verifier::loop_isolation(false)]
fn str_to_chars(s: &str) -> (r: Vec<char>)
    ensures
        r@ == s@,
{
    let n = s.unicode_len();
    let mut r: Vec<char> = Vec::new();
    let mut i: usize = 0;
    while i < n
        invariant
            0 <= i <= n,
            r@ == s@.subrange(0, i as int),
        decreases n - i,
    {
        r.push(s.get_char(i));
        assert(r@ =~= s@.subrange(0, i + 1));
        i = i + 1;
    }
    assert(r@ =~= s@);
    r
}

/// Reads the body of a JSON string starting just after the opening quote,
/// following [`parse_str_body`] exactly.
#[verifier::loop_isolation(false)]
fn parse_str_at(s: &Vec<char>, i: usize) -> (r: Option<(String, usize)>)
    requires
        i <= s@.len(),
    ensures
        match r {
            Some((t, j)) => parse_str_body(s@, i as int) == Some((t@, j as int)) && i < j
                <= s@.len(),
            None => parse_str_body(s@, i as int) is None,
        },
{
    let mut acc = String::new();
    let mut p = i;
    loop
        invariant
            i <= p <= s@.len(),
            parse_str_body(s@, i as int) == (match parse_str_body(s@, p as int) {
                Some((t, j)) => Some((acc@ + t, j)),
                None => None::<(Seq<char>, int)>,
            }),
        decreases s@.len() - p,
    {
        if p >= s.len() {
            return None;
        }
        let c = s[p];
        if c == '"' {
            proof {
                assert(parse_str_body(s@, p as int) == Some(
                    (Seq::<char>::empty(), p + 1 as int),
                ));
                assert(acc@ + Seq::<char>::empty() =~= acc@);
            }
            return Some((acc, p + 1));
        } else if c == '\\' {
            if p + 1 < s.len() && (s[p + 1] == '"' || s[p + 1] == '\\') {
                let c2 = s[p + 1];
                let ghost pre = acc@;
                push_char(&mut acc, c2);
                proof {
                    match parse_str_body(s@, p + 2) {
                        Some((t, j)) => {
                            assert(parse_str_body(s@, p as int) == Some((seq![c2] + t, j)));
                            assert(acc@ + t =~= pre + (seq![c2] + t));
                        }
                        None => {}
                    }
                }
                p = p + 2;
            } else {
                return None;
            }
        } else {
            let ghost pre = acc@;
            push_char(&mut acc, c);
            proof {
                match parse_str_body(s@, p + 1) {
                    Some((t, j)) => {
                        assert(parse_str_body(s@, p as int) == Some((seq![c] + t, j)));
                        assert(acc@ + t =~= pre + (seq![c] + t));
                    }
                    None => {}
                }
            }
            p = p + 1;
        }
    }
}

/// Reads one JSON value starting at position `i`, following [`parse_val`]
/// exactly.
fn parse_val_at(s: &Vec<char>, i: usize) -> (r: Option<(Value, usize)>)
    ensures
        match r {
            Some((v, j)) => parse_val(s@, i as int) == Some((v.model(), j as int)) && i < j
                <= s@.len(),
            None => parse_val(s@, i as int) is None,
        },
    decreases s@.len() - i, 1int,
{
    if i >= s.len() {
        return None;
    }
    let c = s[i];
    if c == 'n' {
        if s.len() - i >= 4 && s[i + 1] == 'u' && s[i + 2] == 'l' && s[i + 3] == 'l' {
            Some((Value::Null, i + 4))
        } else {
            None
        }
    } else if c == 't' {
        if s.len() - i >= 4 && s[i + 1] == 'r' && s[i + 2] == 'u' && s[i + 3] == 'e' {
            Some((Value::Bool(true), i + 4))
        } else {
            None
        }
    } else if c == 'f' {
        if s.len() - i >= 5 && s[i + 1] == 'a' && s[i + 2] == 'l' && s[i + 3] == 's' && s[i + 4]
            == 'e' {
            Some((Value::Bool(false), i + 5))
        } else {
            None
        }
    } else if c == '"' {
        match parse_str_at(s, i + 1) {
            Some((t, j)) => Some((Value::Str(t), j)),
            None => None,
        }
    } else if c == '[' {
        if s.len() - i >= 2 && s[i + 1] == ']' {
            let xs: Vec<Value> = Vec::new();
            proof {
                assert(model_list(xs@) =~= Seq::<SpecVal>::empty());
            }
            Some((Value::Arr(xs), i + 2))
        } else {
            match parse_items_at(s, i + 1) {
                Some((xs, j)) => Some((Value::Arr(xs), j)),
                None => None,
            }
        }
    } else if c == '{' {
        if s.len() - i >= 2 && s[i + 1] == '}' {
            let fs: Vec<(String, Value)> = Vec::new();
            proof {
                assert(model_fields(fs@) =~= Seq::<(Seq<char>, SpecVal)>::empty());
            }
            Some((Value::Obj(fs), i + 2))
        } else {
            match parse_fields_at(s, i + 1) {
                Some((fs, j)) => Some((Value::Obj(fs), j)),
                None => None,
            }
        }
    } else {
        None
    }
}

/// Reads a nonempty run of array items, following [`parse_items`] exactly.
fn parse_items_at(s: &Vec<char>, i: usize) -> (r: Option<(Vec<Value>, usize)>)
    ensures
        match r {
            Some((xs, j)) => parse_items(s@, i as int) == Some(
                (model_list(xs@), j as int),
            ) && i < j <= s@.len(),
            None => parse_items(s@, i as int) is None,
        },
    decreases s@.len() - i, 2int,
{
    match parse_val_at(s, i) {
        None => None,
        Some((v, k)) => {
            if k >= s.len() {
                return None;
            }
            let c = s[k];
            if c == ',' {
                match parse_items_at(s, k + 1) {
                    None => None,
                    Some((rest, j)) => {
                        let ghost restv = rest@;
                        let ghost vm = v.model();
                        let mut xs = rest;
                        xs.insert(0, v);
                        proof {
                            assert(xs@ =~= seq![xs@[0]] + restv);
                            assert(model_list(xs@) =~= seq![vm] + model_list(restv));
                        }
                        Some((xs, j))
                    }
                }
            } else if c == ']' {
                let ghost vm = v.model();
                let mut xs: Vec<Value> = Vec::new();
                xs.push(v);
                proof {
                    assert(model_list(xs@) =~= seq![vm]);
                }
                Some((xs, k + 1))
            } else {
                None
            }
        }
    }
}

/// Reads a nonempty run of object fields, following [`parse_fields`]
/// exactly.
fn parse_fields_at(s: &Vec<char>, i: usize) -> (r: Option<(Vec<(String, Value)>, usize)>)
    ensures
        match r {
            Some((fs, j)) => parse_fields(s@, i as int) == Some(
                (model_fields(fs@), j as int),
            ) && i < j <= s@.len(),
            None => parse_fields(s@, i as int) is None,
        },
    decreases s@.len() - i, 2int,
{
    if i >= s.len() {
        return None;
    }
    if s[i] != '"' {
        return None;
    }
    match parse_str_at(s, i + 1) {
        None => None,
        Some((key, j)) => {
            if j >= s.len() {
                return None;
            }
            if s[j] != ':' {
                return None;
            }
            match parse_val_at(s, j + 1) {
                None => None,
                Some((v, k)) => {
                    if k >= s.len() {
                        return None;
                    }
                    let c = s[k];
                    if c == ',' {
                        match parse_fields_at(s, k + 1) {
                            None => None,
                            Some((rest, m2)) => {
                                let ghost restv = rest@;
                                let ghost km = (key@, v.model());
                                let mut fs = rest;
                                fs.insert(0, (key, v));
                                proof {
                                    assert(fs@ =~= seq![fs@[0]] + restv);
                                    assert(model_fields(fs@) =~= seq![km] + model_fields(
                                        restv,
                                    ));
                                }
                                Some((fs, m2))
                            }
                        }
                    } else if c == '}' {
                        let ghost km = (key@, v.model());
                        let mut fs: Vec<(String, Value)> = Vec::new();
                        fs.push((key, v));
                        proof {
                            assert(model_fields(fs@) =~= seq![km]);
                        }
                        Some((fs, k + 1))
                    } else {
                        None
                    }
                }
            }
        }
    }
}

/// Parses a whole text as one JSON value. Fails exactly when the text is
/// not the compact JSON form of a value.
pub fn decode(text: &str) -> (r: Result<Value, ParseError>)
    ensures
        match r {
            Ok(v) => spec_decode(text@) == Some(v.model()),
            Err(_) => spec_decode(text@) is None,
        },
{
    let cs = str_to_chars(text);
    match parse_val_at(&cs, 0) {
        Some((v, j)) => if j == cs.len() {
            Ok(v)
        } else {
            Err(ParseError)
        },
        None => Err(ParseError),
    }
}

/// Produces the compact JSON text of `v`.
pub fn encode(v: &Value) -> (out: String)
    ensures
        out@ == enc(v.model()),
{
    let mut out = String::new();
    write_value(v, &mut out);
    proof {
        assert(out@ =~= enc(v.model()));
    }
    out
}

/// Capability: convert to and from the structural JSON representation.
///
/// A type opts in by supplying the two mappings; `to_json` and `from_json`
/// come for free from them, through the verified codec.
pub trait Jsonable: Sized {
    /// The structural representation of this value.
    fn to_value(&self) -> Value;

    /// Rebuilds a value from its structural representation; `None` when
    /// the shape does not match.
    fn from_value(v: &Value) -> Option<Self>;

    /// Encodes the value as compact JSON text.
    fn to_json(&self) -> String {
        encode(&self.to_value())
    }

    /// Decodes a value from compact JSON text: fails when the text is not
    /// valid JSON or its shape does not match.
    fn from_json(text: &str) -> Result<Self, ParseError> {
        match decode(text) {
            Ok(v) => match Self::from_value(&v) {
                Some(x) => Ok(x),
                None => Err(ParseError),
            },
            Err(e) => Err(e),
        }
    }
}

} // verus!
