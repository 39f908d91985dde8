//! What validation and coercion are for: which texts have which type, and what is left
//! of a text that was coerced.
use crate::node::NodeView;
use crate::schema::coerce::{canonical, canonical_any, lemma_integer_is_float};
use crate::schema::model::{property_of, JsonType, SchemaView};
use crate::schema::number::{
    digits_end, exponent_from, integer_value, is_decimal_number, is_float, lower, lowered, unsigned,
};
use crate::schema::validate::{
    entry_failures, has_key, item_failures, key_text, number_of, required_failures, violations,
    NumberView, SchemaErrorView,
};
use vstd::prelude::*;
use vstd::utf8::char_u32_cast;

verus! {

/// Whether a node has no failures against a schema.
pub open spec fn valid(n: NodeView, s: SchemaView, numbers: Seq<NumberView>) -> bool {
    violations(n, s, ""@, numbers).len() == 0
}

/// The schema that asks for one type and for nothing else.
pub open spec fn only_type(ty: JsonType) -> SchemaView {
    SchemaView {
        types: Some(seq![ty]),
        required: seq![],
        properties: seq![],
        additional_properties: None,
        items: None,
        enum_values: None,
        const_value: None,
        minimum: None,
        maximum: None,
        min_length: None,
        max_length: None,
        min_items: None,
        max_items: None,
        min_properties: None,
        max_properties: None,
        default: None,
    }
}

/// Decimal digits, or nothing.
pub open spec fn digits(s: Seq<char>) -> bool {
    forall|i: int| 0 <= i < s.len() ==> '0' as u32 <= (#[trigger] s[i]) as u32 <= '9' as u32
}

/// A sign, or nothing.
pub open spec fn sign(s: Seq<char>) -> bool {
    s == seq!['-'] || s == seq!['+'] || s.len() == 0
}

/// An exponent, or nothing.
pub open spec fn exponent(s: Seq<char>) -> bool {
    s.len() == 0 || ((s[0] == 'e' || s[0] == 'E') && ({
        let t = s.drop_first();
        ||| t.len() > 0 && digits(t)
        ||| t.len() > 1 && (t[0] == '-' || t[0] == '+') && digits(t.drop_first())
    }))
}

/// The same letters, `word` in lower case and `s` in either.
pub open spec fn same_word(s: Seq<char>, word: Seq<char>) -> bool {
    s.len() == word.len() && forall|i: int|
        0 <= i < s.len() ==> #[trigger] s[i] == word[i] || (s[i] as u32 + 32 == word[i] as u32 && 'A' as u32
            <= s[i] as u32 <= 'Z' as u32)
}

/// Lower-case letters only.
spec fn small(word: Seq<char>) -> bool {
    forall|i: int| 0 <= i < word.len() ==> 'a' as u32 <= (#[trigger] word[i]) as u32 <= 'z' as u32
}

proof fn lemma_same_word(s: Seq<char>, word: Seq<char>)
    requires
        small(word),
    ensures
        same_word(s, word) == (lowered(s) == word),
{
    if lowered(s) == word {
        assert forall|i: int| 0 <= i < s.len() implies #[trigger] s[i] == word[i] || (s[i] as u32
            + 32 == word[i] as u32 && 'A' as u32 <= s[i] as u32 <= 'Z' as u32) by {
            assert(lowered(s)[i] == word[i]);
        }
    }
    if same_word(s, word) {
        assert forall|i: int| 0 <= i < s.len() implies lowered(s)[i] == word[i] by {
            assert(s[i] == word[i] || (s[i] as u32 + 32 == word[i] as u32 && 'A' as u32 <= s[i] as u32 <= 'Z' as u32));
            assert('a' as u32 <= word[i] as u32 <= 'z' as u32);
            char_u32_cast(word[i], word[i] as u32);
        }
        assert(lowered(s) =~= word);
    }
}

proof fn lemma_words()
    ensures
        small("inf"@),
        small("infinity"@),
        small("nan"@),
        small("true"@),
        small("false"@),
        small("null"@),
        "inf"@.len() == 3,
        "infinity"@.len() == 8,
        "nan"@.len() == 3,
        "true"@.len() == 4,
        "false"@.len() == 5,
        "null"@.len() == 4,
        "inf"@[0] == 'i' && "infinity"@[0] == 'i' && "nan"@[0] == 'n',
        "true"@[0] == 't' && "false"@[0] == 'f' && "null"@[0] == 'n' && "null"@[1] == 'u',
        "nan"@[1] == 'a',
{
    reveal_strlit("inf");
    reveal_strlit("infinity");
    reveal_strlit("nan");
    reveal_strlit("true");
    reveal_strlit("false");
    reveal_strlit("null");
}

/// What one type asks of a node.
proof fn lemma_only_type(n: NodeView, ty: JsonType, numbers: Seq<NumberView>)
    ensures
        valid(n, only_type(ty), numbers) == crate::schema::validate::satisfies(
            ty,
            crate::schema::validate::type_of(n),
        ),
{
    let s = only_type(ty);
    assert(s.types->0[0] == ty);
    let actual = crate::schema::validate::type_of(n);
    if crate::schema::validate::satisfies(ty, actual) {
        assert(crate::schema::validate::satisfies(s.types->0[0], actual));
        if let NodeView::Mapping { entries, .. } = n {
            lemma_no_entry_failures(entries, entries.len(), s, numbers);
        }
        assert(violations(n, s, ""@, numbers) =~= Seq::<SchemaErrorView>::empty());
    } else {
        assert(crate::schema::validate::wrong_type(n, s));
    }
}

proof fn lemma_no_entry_failures(
    entries: Seq<(NodeView, NodeView)>,
    k: nat,
    s: SchemaView,
    numbers: Seq<NumberView>,
)
    requires
        s.properties.len() == 0,
        s.additional_properties is None,
    ensures
        crate::schema::validate::entry_failures(entries, k, s, ""@, numbers).len() == 0,
    decreases k,
{
    if 0 < k <= entries.len() {
        lemma_no_entry_failures(entries, (k - 1) as nat, s, numbers);
    }
}

/// A sequence is an array, a mapping is an object, and neither is anything else; no
/// scalar is one of the two.
pub proof fn law_collection_types(n: NodeView, ty: JsonType, numbers: Seq<NumberView>)
    ensures
        n is Sequence ==> (valid(n, only_type(ty), numbers) <==> ty is Array),
        n is Mapping ==> (valid(n, only_type(ty), numbers) <==> ty is Object),
        n is Scalar && (ty is Array || ty is Object) ==> !valid(n, only_type(ty), numbers),
{
    lemma_only_type(n, ty, numbers);
}

/// A scalar has exactly one of the types null, boolean, number and string; where it has
/// the type integer, that one is number.
pub proof fn law_scalar_has_one_type(n: NodeView, numbers: Seq<NumberView>)
    requires
        n is Scalar,
    ensures
        ({
            let null = valid(n, only_type(JsonType::Null), numbers);
            let boolean = valid(n, only_type(JsonType::Boolean), numbers);
            let integer = valid(n, only_type(JsonType::Integer), numbers);
            let number = valid(n, only_type(JsonType::Number), numbers);
            let string = valid(n, only_type(JsonType::String), numbers);
            &&& null || boolean || number || string
            &&& !(null && boolean) && !(null && number) && !(null && string)
            &&& !(boolean && number) && !(boolean && string) && !(number && string)
            &&& integer ==> number
        }),
{
    lemma_only_type(n, JsonType::Null, numbers);
    lemma_only_type(n, JsonType::Boolean, numbers);
    lemma_only_type(n, JsonType::Integer, numbers);
    lemma_only_type(n, JsonType::Number, numbers);
    lemma_only_type(n, JsonType::String, numbers);
}

/// The boolean texts are `true`, `True`, `TRUE`, `false`, `False` and `FALSE`.
pub proof fn law_boolean_texts(n: NodeView, numbers: Seq<NumberView>)
    requires
        n is Scalar,
    ensures
        valid(n, only_type(JsonType::Boolean), numbers) <==> (n->Scalar_value == "true"@
            || n->Scalar_value == "True"@ || n->Scalar_value == "TRUE"@ || n->Scalar_value
            == "false"@ || n->Scalar_value == "False"@ || n->Scalar_value == "FALSE"@),
{
    lemma_only_type(n, JsonType::Boolean, numbers);
    reveal_strlit("true");
    reveal_strlit("True");
    reveal_strlit("TRUE");
    reveal_strlit("false");
    reveal_strlit("False");
    reveal_strlit("FALSE");
    reveal_strlit("null");
    reveal_strlit("Null");
    reveal_strlit("NULL");
    reveal_strlit("~");
    reveal_strlit("");
    let s = n->Scalar_value;
    if s.len() > 0 {
        assert(s[0] == s[0]);
        assert("true"@[0] == 't' && "True"@[0] == 'T' && "TRUE"@[0] == 'T');
        assert("false"@[0] == 'f' && "False"@[0] == 'F' && "FALSE"@[0] == 'F');
        assert("null"@[0] == 'n' && "Null"@[0] == 'N' && "NULL"@[0] == 'N' && "~"@[0] == '~');
    }
}

/// The null texts are `null`, `Null`, `NULL`, `~` and the empty text.
pub proof fn law_null_texts(n: NodeView, numbers: Seq<NumberView>)
    requires
        n is Scalar,
    ensures
        valid(n, only_type(JsonType::Null), numbers) <==> (n->Scalar_value == "null"@
            || n->Scalar_value == "Null"@ || n->Scalar_value == "NULL"@ || n->Scalar_value == "~"@
            || n->Scalar_value.len() == 0),
{
    lemma_only_type(n, JsonType::Null, numbers);
    reveal_strlit("");
    assert(n->Scalar_value.len() == 0 ==> n->Scalar_value =~= ""@);
}

/// A text that starts like a number is neither a null text nor a boolean text.
proof fn lemma_no_word(s: Seq<char>)
    requires
        s.len() > 0,
        '0' as u32 <= s[0] as u32 <= '9' as u32 || s[0] == '-' || s[0] == '+' || s[0] == '.',
    ensures
        crate::schema::validate::scalar_type(s) == (if integer_value(s) is Some {
            JsonType::Integer
        } else if is_float(s) {
            JsonType::Number
        } else {
            JsonType::String
        }),
{
    reveal_strlit("true");
    reveal_strlit("True");
    reveal_strlit("TRUE");
    reveal_strlit("false");
    reveal_strlit("False");
    reveal_strlit("FALSE");
    reveal_strlit("null");
    reveal_strlit("Null");
    reveal_strlit("NULL");
    reveal_strlit("~");
    reveal_strlit("");
    assert("true"@[0] == 't' && "True"@[0] == 'T' && "TRUE"@[0] == 'T');
    assert("false"@[0] == 'f' && "False"@[0] == 'F' && "FALSE"@[0] == 'F');
    assert("null"@[0] == 'n' && "Null"@[0] == 'N' && "NULL"@[0] == 'N' && "~"@[0] == '~');
}

/// The number of a few digits is small.
proof fn lemma_few_digits(s: Seq<char>)
    requires
        digits(s),
        s.len() <= 18,
    ensures
        crate::text::number(s) < vstd::arithmetic::power::pow(10, s.len()),
        vstd::arithmetic::power::pow(10, s.len()) <= 1_000_000_000_000_000_000,
    decreases s.len(),
{
    vstd::arithmetic::power::lemma_pow0(10);
    if s.len() > 0 {
        lemma_few_digits(s.drop_last());
        assert('0' as u32 <= s[s.len() - 1] as u32 <= '9' as u32);
        let k = (s.len() - 1) as nat;
        assert(vstd::arithmetic::power::pow(10, s.len()) == 10 * vstd::arithmetic::power::pow(
            10,
            k,
        )) by {
            reveal(vstd::arithmetic::power::pow);
        }
    }
    lemma_ten(s.len());
}

proof fn lemma_ten(k: nat)
    requires
        k <= 18,
    ensures
        vstd::arithmetic::power::pow(10, k) <= 1_000_000_000_000_000_000,
{
    reveal(vstd::arithmetic::power::pow);
    reveal_with_fuel(vstd::arithmetic::power::pow, 20);
}

/// A sign, or nothing, and digits, at most eighteen of them, make an integer.
pub proof fn law_digits_are_integer(n: NodeView, sgn: Seq<char>, ds: Seq<char>, numbers: Seq<
    NumberView,
>)
    requires
        n is Scalar,
        n->Scalar_value == sgn + ds,
        sign(sgn),
        digits(ds),
        0 < ds.len() <= 18,
    ensures
        valid(n, only_type(JsonType::Integer), numbers),
        valid(n, only_type(JsonType::Number), numbers),
        !valid(n, only_type(JsonType::String), numbers),
{
    lemma_only_type(n, JsonType::Integer, numbers);
    lemma_only_type(n, JsonType::Number, numbers);
    lemma_only_type(n, JsonType::String, numbers);
    let s = sgn + ds;
    assert('0' as u32 <= ds[0] as u32 <= '9' as u32);
    if sgn.len() == 0 {
        assert(s =~= ds);
    } else {
        assert(s[0] == sgn[0]);
        assert(s.drop_first() =~= ds);
    }
    assert(unsigned(s).1 == ds);
    lemma_few_digits(ds);
    assert forall|i: int| 0 <= i < ds.len() implies crate::text::is_digit_char(
        #[trigger] ds[i],
    ) by {}
    lemma_no_word(s);
}

/// An integer is a sign, or nothing, and digits, at least one.
pub proof fn law_integer_has_digits(n: NodeView, numbers: Seq<NumberView>)
    requires
        n is Scalar,
        valid(n, only_type(JsonType::Integer), numbers),
    ensures
        ({
            let s = n->Scalar_value;
            ||| s.len() > 0 && digits(s)
            ||| s.len() > 1 && (s[0] == '-' || s[0] == '+') && digits(s.drop_first())
        }),
{
    lemma_only_type(n, JsonType::Integer, numbers);
    let s = n->Scalar_value;
    let ds = unsigned(s).1;
    assert(forall|i: int|
        0 <= i < ds.len() ==> crate::text::is_digit_char(#[trigger] ds[i]) ==> '0' as u32 <= ds[i] as u32 <= '9' as u32);
}

proof fn lemma_digits_stop(s: Seq<char>, i: int, e: int)
    requires
        0 <= i <= e <= s.len(),
        forall|j: int| i <= j < e ==> '0' as u32 <= (#[trigger] s[j]) as u32 <= '9' as u32,
        e < s.len() ==> !('0' as u32 <= s[e] as u32 <= '9' as u32),
    ensures
        digits_end(s, i) == e,
    decreases e - i,
{
    if i < e {
        assert('0' as u32 <= s[i] as u32 <= '9' as u32);
        lemma_digits_stop(s, i + 1, e);
    }
}

proof fn lemma_digits_run(s: Seq<char>, i: int)
    requires
        0 <= i <= s.len(),
    ensures
        i <= digits_end(s, i) <= s.len(),
        digits(s.subrange(i, digits_end(s, i))),
    decreases s.len() - i,
{
    if i < s.len() && crate::text::is_digit_char(s[i]) {
        lemma_digits_run(s, i + 1);
        let e = digits_end(s, i);
        let t = s.subrange(i, e);
        assert forall|j: int| 0 <= j < t.len() implies '0' as u32 <= (#[trigger] t[j]) as u32 <= '9' as u32 by {
            if j > 0 {
                assert(t[j] == s.subrange(i + 1, e)[j - 1]);
            }
        }
    }
}

/// The exponent at the end of a text.
proof fn lemma_exponent_end(s: Seq<char>, e: int)
    requires
        0 <= e <= s.len(),
    ensures
        exponent_from(s, e) == exponent(s.subrange(e, s.len() as int)),
{
    let x = s.subrange(e, s.len() as int);
    if e < s.len() && (s[e] == 'e' || s[e] == 'E') {
        let t = x.drop_first();
        let d = if e + 1 < s.len() && (s[e + 1] == '-' || s[e + 1] == '+') {
            e + 2
        } else {
            e + 1
        };
        let ds = s.subrange(d, s.len() as int);
        if d == e + 1 {
            assert(t =~= ds);
        } else {
            assert(t[0] == s[e + 1]);
            assert(t.drop_first() =~= ds);
            assert(!digits(t));
        }
        if digits(ds) {
            assert forall|j: int| d <= j < s.len() implies '0' as u32 <= (#[trigger] s[j]) as u32 <= '9' as u32 by {
                assert(s[j] == ds[j - d]);
            }
            lemma_digits_stop(s, d, s.len() as int);
        }
        if d <= s.len() {
            lemma_digits_run(s, d);
        }
        if d < s.len() && digits_end(s, d) == s.len() {
            assert(digits(ds));
        }
    }
}

/// Digits with a point before, among or behind them, with a sign in front and an exponent
/// behind, or without, make a number that is no integer.
pub proof fn law_point_makes_number(
    n: NodeView,
    sgn: Seq<char>,
    whole: Seq<char>,
    part: Seq<char>,
    exp: Seq<char>,
    numbers: Seq<NumberView>,
)
    requires
        n is Scalar,
        n->Scalar_value == sgn + whole + seq!['.'] + part + exp,
        sign(sgn),
        digits(whole),
        digits(part),
        whole.len() + part.len() > 0,
        exponent(exp),
    ensures
        valid(n, only_type(JsonType::Number), numbers),
        !valid(n, only_type(JsonType::Integer), numbers),
        !valid(n, only_type(JsonType::String), numbers),
{
    lemma_only_type(n, JsonType::Integer, numbers);
    lemma_only_type(n, JsonType::Number, numbers);
    lemma_only_type(n, JsonType::String, numbers);
    let s = n->Scalar_value;
    let t = whole + seq!['.'] + part + exp;
    assert(s =~= sgn + t);
    let w = whole.len() as int;
    assert(t[w] == '.');
    assert(whole.len() > 0 ==> '0' as u32 <= whole[0] as u32 <= '9' as u32);
    assert(t[0] == if w > 0 { whole[0] } else { '.' });
    if sgn.len() == 0 {
        assert(s =~= t);
    } else {
        assert(s[0] == sgn[0]);
        assert(s.drop_first() =~= t);
    }
    assert(unsigned(s).1 == t);
    assert(!crate::text::is_digit_char(t[w]));
    assert forall|j: int| 0 <= j < w implies '0' as u32 <= (#[trigger] t[j]) as u32 <= '9' as u32 by {
        assert(t[j] == whole[j]);
    }
    lemma_digits_stop(t, 0, w);
    let e = w + 1 + part.len();
    assert forall|j: int| w + 1 <= j < e implies '0' as u32 <= (#[trigger] t[j]) as u32 <= '9' as u32 by {
        assert(t[j] == part[j - w - 1]);
    }
    if e < t.len() {
        assert(t[e] == exp[0]);
    }
    lemma_digits_stop(t, w + 1, e);
    assert(t.subrange(e, t.len() as int) =~= exp);
    lemma_exponent_end(t, e);
    lemma_no_word(s);
}

/// Digits and an exponent, with a sign in front or without, make a number that is no
/// integer.
pub proof fn law_exponent_makes_number(
    n: NodeView,
    sgn: Seq<char>,
    whole: Seq<char>,
    exp: Seq<char>,
    numbers: Seq<NumberView>,
)
    requires
        n is Scalar,
        n->Scalar_value == sgn + whole + exp,
        sign(sgn),
        digits(whole),
        whole.len() > 0,
        exponent(exp),
        exp.len() > 0,
    ensures
        valid(n, only_type(JsonType::Number), numbers),
        !valid(n, only_type(JsonType::Integer), numbers),
        !valid(n, only_type(JsonType::String), numbers),
{
    lemma_only_type(n, JsonType::Integer, numbers);
    lemma_only_type(n, JsonType::Number, numbers);
    lemma_only_type(n, JsonType::String, numbers);
    let s = n->Scalar_value;
    let t = whole + exp;
    assert(s =~= sgn + t);
    let w = whole.len() as int;
    assert('0' as u32 <= whole[0] as u32 <= '9' as u32);
    assert(t[0] == whole[0]);
    if sgn.len() == 0 {
        assert(s =~= t);
    } else {
        assert(s[0] == sgn[0]);
        assert(s.drop_first() =~= t);
    }
    assert(t[w] == exp[0]);
    assert(!crate::text::is_digit_char(t[w]));
    assert forall|j: int| 0 <= j < w implies '0' as u32 <= (#[trigger] t[j]) as u32 <= '9' as u32 by {
        assert(t[j] == whole[j]);
    }
    lemma_digits_stop(t, 0, w);
    assert(t.subrange(w, t.len() as int) =~= exp);
    lemma_exponent_end(t, w);
    lemma_no_word(s);
}

/// What makes a number: a sign, or nothing, then digits, then a point and digits, or
/// nothing, and an exponent, or nothing, with at least one digit; or, behind the sign, one
/// of the words `inf`, `infinity` and `nan`, in letters of either case.
pub open spec fn number_parts(
    s: Seq<char>,
    sgn: Seq<char>,
    whole: Seq<char>,
    part: Seq<char>,
    exp: Seq<char>,
) -> bool {
    &&& s == sgn + whole + part + exp
    &&& sign(sgn)
    &&& digits(whole)
    &&& part.len() == 0 || (part[0] == '.' && digits(part.drop_first()))
    &&& exponent(exp)
    &&& whole.len() > 0 || part.len() > 1
}

/// Nothing but a number in decimal notation, an infinity or not-a-number has the type
/// number.
pub proof fn law_number_is_written_out(n: NodeView, numbers: Seq<NumberView>)
    requires
        n is Scalar,
        valid(n, only_type(JsonType::Number), numbers),
    ensures
        ({
            let s = n->Scalar_value;
            let t = if s.len() > 0 && (s[0] == '-' || s[0] == '+') {
                s.drop_first()
            } else {
                s
            };
            ||| same_word(t, "inf"@) || same_word(t, "infinity"@) || same_word(t, "nan"@)
            ||| exists|sgn: Seq<char>, whole: Seq<char>, part: Seq<char>, exp: Seq<char>|
                number_parts(s, sgn, whole, part, exp)
        }),
{
    lemma_only_type(n, JsonType::Number, numbers);
    lemma_words();
    let s = n->Scalar_value;
    let t = unsigned(s).1;
    lemma_same_word(t, "inf"@);
    lemma_same_word(t, "infinity"@);
    lemma_same_word(t, "nan"@);
    if integer_value(s) is Some {
        lemma_integer_is_float(s);
    }
    if is_decimal_number(t) {
        let sgn = if s.len() > 0 && (s[0] == '-' || s[0] == '+') {
            seq![s[0]]
        } else {
            Seq::<char>::empty()
        };
        assert(s =~= sgn + t);
        let w = digits_end(t, 0);
        lemma_digits_run(t, 0);
        let whole = t.subrange(0, w);
        let e = if w < t.len() && t[w] == '.' {
            digits_end(t, w + 1)
        } else {
            w
        };
        if w < t.len() && t[w] == '.' {
            lemma_digits_run(t, w + 1);
        }
        let part = t.subrange(w, e);
        if part.len() > 0 {
            assert(part.drop_first() =~= t.subrange(w + 1, e));
        }
        let exp = t.subrange(e, t.len() as int);
        lemma_exponent_end(t, e);
        assert(s =~= sgn + whole + part + exp);
        assert(number_parts(s, sgn, whole, part, exp));
    }
}

/// The words for infinity and not-a-number, with a sign in front or without, in letters
/// of either case, are numbers.
pub proof fn law_infinity_is_number(n: NodeView, sgn: Seq<char>, t: Seq<char>, numbers: Seq<
    NumberView,
>)
    requires
        n is Scalar,
        n->Scalar_value == sgn + t,
        sign(sgn),
        same_word(t, "inf"@) || same_word(t, "infinity"@) || same_word(t, "nan"@),
    ensures
        valid(n, only_type(JsonType::Number), numbers),
        !valid(n, only_type(JsonType::Integer), numbers),
{
    lemma_only_type(n, JsonType::Number, numbers);
    lemma_only_type(n, JsonType::Integer, numbers);
    lemma_words();
    lemma_same_word(t, "inf"@);
    lemma_same_word(t, "infinity"@);
    lemma_same_word(t, "nan"@);
    let s = sgn + t;
    assert(lowered(t)[0] == lower(t[0]));
    assert(lowered(t)[1] == lower(t[1]));
    if sgn.len() == 0 {
        assert(s =~= t);
        reveal_strlit("true");
        reveal_strlit("True");
        reveal_strlit("TRUE");
        reveal_strlit("false");
        reveal_strlit("False");
        reveal_strlit("FALSE");
        reveal_strlit("null");
        reveal_strlit("Null");
        reveal_strlit("NULL");
        reveal_strlit("~");
        reveal_strlit("");
        assert("true"@[0] == 't' && "True"@[0] == 'T' && "TRUE"@[0] == 'T');
        assert("false"@[0] == 'f' && "False"@[0] == 'F' && "FALSE"@[0] == 'F');
        assert("null"@.len() == 4 && "Null"@.len() == 4 && "NULL"@.len() == 4);
    } else {
        assert(s[0] == sgn[0]);
        assert(s.drop_first() =~= t);
        lemma_no_word(s);
    }
    assert(unsigned(s).1 == t);
    assert(!crate::text::is_digit_char(t[0]));
}

/// Coercion to `string` puts an unquoted text in double quotes exactly if it has the type
/// number or is `true`, `false` or `null` in letters of either case. A quoted text stays.
pub proof fn law_string_coercion(text: Seq<char>, n: NodeView, numbers: Seq<NumberView>)
    requires
        n is Scalar,
        n->Scalar_value == text,
    ensures
        canonical_any(text, seq![JsonType::String], 0) == canonical(text, JsonType::String),
        text.len() > 0 && (text[0] == '"' || text[0] == '\'') ==> canonical(text, JsonType::String)
            is None,
        !(text.len() > 0 && (text[0] == '"' || text[0] == '\'')) ==> canonical(
            text,
            JsonType::String,
        ) == (if valid(n, only_type(JsonType::Number), numbers) || same_word(text, "true"@)
            || same_word(text, "false"@) || same_word(text, "null"@) {
            Some(seq!['"'] + text + seq!['"'])
        } else {
            None
        }),
{
    let types = seq![JsonType::String];
    assert(types[0] == JsonType::String);
    assert(canonical_any(text, types, 1) is None);
    lemma_only_type(n, JsonType::Number, numbers);
    lemma_words();
    lemma_same_word(text, "true"@);
    lemma_same_word(text, "false"@);
    lemma_same_word(text, "null"@);
    reveal_strlit("\"");
    assert("\""@ =~= seq!['"']);
    if integer_value(text) is Some {
        lemma_integer_is_float(text);
    }
    if is_float(text) {
        lemma_float_is_no_word(text);
    }
}

/// A text that denotes a number is neither a null text nor a boolean text.
proof fn lemma_float_is_no_word(s: Seq<char>)
    requires
        is_float(s),
    ensures
        crate::schema::validate::scalar_type(s) is Integer || crate::schema::validate::scalar_type(
            s,
        ) is Number,
{
    lemma_words();
    let t = unsigned(s).1;
    lemma_same_word(t, "inf"@);
    lemma_same_word(t, "infinity"@);
    lemma_same_word(t, "nan"@);
    if is_decimal_number(t) {
        assert(digits_end(t, 0) > 0 || t[0] == '.');
        assert(s.len() > 0);
        lemma_no_word(s);
    } else {
        if s == t {
            assert(lowered(t)[0] == lower(t[0]));
            assert(lowered(t)[1] == lower(t[1]));
            reveal_strlit("true");
            reveal_strlit("True");
            reveal_strlit("TRUE");
            reveal_strlit("false");
            reveal_strlit("False");
            reveal_strlit("FALSE");
            reveal_strlit("null");
            reveal_strlit("Null");
            reveal_strlit("NULL");
            reveal_strlit("~");
            reveal_strlit("");
            assert("true"@[0] == 't' && "True"@[0] == 'T' && "TRUE"@[0] == 'T');
            assert("false"@[0] == 'f' && "False"@[0] == 'F' && "FALSE"@[0] == 'F');
            assert("null"@.len() == 4 && "Null"@.len() == 4 && "NULL"@.len() == 4);
        } else {
            lemma_no_word(s);
        }
    }
}

/// Coercion to `boolean` writes `true` or `false` for that word in letters of either case,
/// with quotes around it or without, and leaves everything else. What it writes is a
/// boolean text.
pub proof fn law_boolean_coercion(text: Seq<char>, inner: Seq<char>)
    requires
        !(text.len() > 0 && (text[0] == '"' || text[0] == '\'')) && inner == text || text
            == seq!['"'] + inner + seq!['"'] || text == seq!['\''] + inner + seq!['\''],
    ensures
        canonical(text, JsonType::Boolean) == (if same_word(inner, "true"@) {
            Some("true"@)
        } else if same_word(inner, "false"@) {
            Some("false"@)
        } else {
            None
        }),
{
    lemma_quotes(text, inner);
    lemma_words();
    lemma_same_word(inner, "true"@);
    lemma_same_word(inner, "false"@);
}

proof fn lemma_quotes(text: Seq<char>, inner: Seq<char>)
    requires
        !(text.len() > 0 && (text[0] == '"' || text[0] == '\'')) && inner == text || text
            == seq!['"'] + inner + seq!['"'] || text == seq!['\''] + inner + seq!['\''],
    ensures
        crate::schema::coerce::unquoted(text) == inner,
{
    if text == seq!['"'] + inner + seq!['"'] || text == seq!['\''] + inner + seq!['\''] {
        assert(text.subrange(1, text.len() - 1) =~= inner);
        assert(text[0] == '"' || text[0] == '\'');
    }
}

/// Coercion to `integer` or `number` takes the quotes away from a text of that type, and
/// leaves every text that is not of that type, with its quotes. To `number` it changes
/// nothing else; to `integer` it leaves a text of type integer.
pub proof fn law_number_coercion(
    text: Seq<char>,
    inner: Seq<char>,
    n: NodeView,
    m: NodeView,
    ty: JsonType,
    numbers: Seq<NumberView>,
)
    requires
        !(text.len() > 0 && (text[0] == '"' || text[0] == '\'')) && inner == text || text
            == seq!['"'] + inner + seq!['"'] || text == seq!['\''] + inner + seq!['\''],
        n is Scalar,
        n->Scalar_value == inner,
        ty is Integer || ty is Number,
    ensures
        canonical(text, ty) is Some <==> valid(n, only_type(ty), numbers),
        ty is Number && valid(n, only_type(ty), numbers) ==> canonical(text, ty) == Some(inner),
        m is Scalar && canonical(text, ty) == Some(m->Scalar_value) ==> valid(
            m,
            only_type(ty),
            numbers,
        ),
{
    lemma_quotes(text, inner);
    lemma_only_type(n, ty, numbers);
    lemma_only_type(m, ty, numbers);
    if is_float(inner) {
        lemma_float_is_no_word(inner);
    }
    if let Some(i) = integer_value(inner) {
        lemma_integer_is_float(inner);
        lemma_float_is_no_word(inner);
        crate::schema::number::law_integer_text(i);
        lemma_integer_is_float(crate::schema::number::integer_text(i));
        lemma_float_is_no_word(crate::schema::number::integer_text(i));
    }
}

/// What coercion to `integer` writes for digits with a sign, or without: no plus, no
/// leading zeros, and the same number.
pub proof fn law_integer_coercion(sgn: Seq<char>, zeros: Seq<char>, ds: Seq<char>)
    requires
        sign(sgn),
        forall|i: int| 0 <= i < zeros.len() ==> #[trigger] zeros[i] == '0',
        digits(ds),
        0 < ds.len() <= 18,
        ds[0] != '0' || ds.len() == 1,
    ensures
        ds != seq!['0'] && sgn == seq!['-'] ==> canonical(sgn + zeros + ds, JsonType::Integer)
            == Some(seq!['-'] + ds),
        ds == seq!['0'] || sgn != seq!['-'] ==> canonical(sgn + zeros + ds, JsonType::Integer)
            == Some(ds),
{
    let s = sgn + zeros + ds;
    let all = zeros + ds;
    assert(s =~= sgn + all);
    lemma_leading_zeros(zeros, ds);
    lemma_few_digits(ds);
    lemma_decimal_of_digits(ds);
    assert(all.len() > 0);
    assert forall|i: int| 0 <= i < all.len() implies crate::text::is_digit_char(
        #[trigger] all[i],
    ) by {
        if i < zeros.len() {
            assert(all[i] == zeros[i]);
        } else {
            assert(all[i] == ds[i - zeros.len()]);
        }
    }
    assert(crate::text::is_digit_char(all[0]));
    if sgn.len() == 0 {
        assert(s =~= all);
    } else {
        assert(s[0] == sgn[0]);
        assert(s.drop_first() =~= all);
    }
    assert(unsigned(s).1 == all);
    lemma_quotes(s, s);
    let v = crate::text::number(ds);
    if ds.len() == 1 && ds[0] == '0' {
        assert(ds =~= seq!['0']);
        reveal_with_fuel(crate::text::number, 2);
        assert(v == 0);
    } else if v == 0 {
        assert(ds =~= crate::text::decimal(0));
        assert(ds[0] == '0');
    }
}

proof fn lemma_leading_zeros(zeros: Seq<char>, ds: Seq<char>)
    requires
        forall|i: int| 0 <= i < zeros.len() ==> #[trigger] zeros[i] == '0',
    ensures
        crate::text::number(zeros + ds) == crate::text::number(ds),
    decreases zeros.len() + ds.len(),
{
    let all = zeros + ds;
    if ds.len() > 0 {
        lemma_leading_zeros(zeros, ds.drop_last());
        assert(all.drop_last() =~= zeros + ds.drop_last());
        assert(all.last() == ds.last());
    } else if zeros.len() > 0 {
        assert(all =~= zeros);
        assert(zeros.last() == '0');
        lemma_leading_zeros(zeros.drop_last(), ds);
        assert(zeros.drop_last() + ds =~= zeros.drop_last());
        assert(crate::text::number(ds) == 0);
    }
}

/// Digits without a leading zero are the decimal notation of their number.
proof fn lemma_decimal_of_digits(ds: Seq<char>)
    requires
        digits(ds),
        ds.len() > 0,
        ds[0] != '0' || ds.len() == 1,
    ensures
        crate::text::decimal(crate::text::number(ds)) == ds,
        ds[0] != '0' ==> crate::text::number(ds) > 0,
    decreases ds.len(),
{
    let c = ds.last();
    assert('0' as u32 <= c as u32 <= '9' as u32);
    assert('0' as u32 <= ds[0] as u32 <= '9' as u32);
    let d = (c as u32 - 0x30) as nat;
    let head = ds.drop_last();
    char_u32_cast(c, c as u32);
    assert(crate::text::digit(d) == c);
    if ds.len() == 1 {
        reveal_with_fuel(crate::text::number, 2);
        assert(crate::text::number(ds) == d);
        assert(ds =~= seq![c]);
    } else {
        assert(head[0] == ds[0]);
        lemma_decimal_of_digits(head);
        let m = crate::text::number(head);
        let v = crate::text::number(ds);
        assert(v == m * 10 + d);
        assert(v / 10 == m && v % 10 == d);
        assert(ds =~= head.push(c));
    }
}

/// Of several types the first one decides to which a text can be coerced.
pub proof fn law_first_type_decides(text: Seq<char>, types: Seq<JsonType>, k: int)
    requires
        0 <= k < types.len(),
        forall|i: int| 0 <= i < k ==> canonical(text, #[trigger] types[i]) is None,
    ensures
        canonical(text, types[k]) is Some ==> canonical_any(text, types, 0) == canonical(
            text,
            types[k],
        ),
        k == types.len() - 1 && canonical(text, types[k]) is None ==> canonical_any(text, types, 0)
            is None,
{
    lemma_first_from(text, types, 0, k);
}

proof fn lemma_first_from(text: Seq<char>, types: Seq<JsonType>, i: int, k: int)
    requires
        0 <= i <= k < types.len(),
        forall|j: int| 0 <= j < k ==> canonical(text, #[trigger] types[j]) is None,
    ensures
        canonical(text, types[k]) is Some ==> canonical_any(text, types, i) == canonical(
            text,
            types[k],
        ),
        k == types.len() - 1 && canonical(text, types[k]) is None ==> canonical_any(text, types, i)
            is None,
    decreases k - i,
{
    if i < k {
        assert(canonical(text, types[i]) is None);
        lemma_first_from(text, types, i + 1, k);
    } else if k == types.len() - 1 {
        assert(canonical_any(text, types, k + 1) is None);
    }
}

// ─── What makes a node valid ────────────────────────────────────────

proof fn lemma_required(
    entries: Seq<(NodeView, NodeView)>,
    required: Seq<Seq<char>>,
    k: nat,
    path: Seq<char>,
    span: crate::types::Span,
)
    requires
        k <= required.len(),
    ensures
        required_failures(entries, required, k, path, span).len() == 0 <==> forall|r: int|
            0 <= r < k ==> has_key(entries, #[trigger] required[r]),
    decreases k,
{
    if k > 0 {
        lemma_required(entries, required, (k - 1) as nat, path, span);
        assert(required[k - 1] == required[k - 1]);
    }
}

/// Whether an entry conforms to the subschema of its key, or, without one, is allowed.
spec fn entry_conforms(
    entry: (NodeView, NodeView),
    s: SchemaView,
    path: Seq<char>,
    numbers: Seq<NumberView>,
) -> bool {
    let key = key_text(entry.0);
    match property_of(s.properties, key, 0) {
        Some(sub) => violations(entry.1, sub, path + "/"@ + key, numbers).len() == 0,
        None => s.additional_properties != Some(false),
    }
}

proof fn lemma_entry_failures(
    entries: Seq<(NodeView, NodeView)>,
    k: nat,
    s: SchemaView,
    path: Seq<char>,
    numbers: Seq<NumberView>,
)
    requires
        k <= entries.len(),
    ensures
        entry_failures(entries, k, s, path, numbers).len() == 0 <==> forall|i: int|
            0 <= i < k ==> entry_conforms(#[trigger] entries[i], s, path, numbers),
    decreases k,
{
    if k > 0 {
        lemma_entry_failures(entries, (k - 1) as nat, s, path, numbers);
        assert(entries[k - 1] == entries[k - 1]);
    }
}

proof fn lemma_item_failures(
    items: Seq<NodeView>,
    k: nat,
    s: SchemaView,
    path: Seq<char>,
    numbers: Seq<NumberView>,
)
    requires
        k <= items.len(),
    ensures
        item_failures(items, k, s, path, numbers).len() == 0 <==> forall|i: int|
            0 <= i < k ==> violations(
                #[trigger] items[i],
                s,
                path + "/"@ + crate::text::decimal(i as nat),
                numbers,
            ).len() == 0,
    decreases k,
{
    if k > 0 {
        lemma_item_failures(items, (k - 1) as nat, s, path, numbers);
        assert(items[k - 1] == items[k - 1]);
    }
}

/// A scalar is valid exactly if its type is among those the schema allows, its text is the
/// constant and in the enumeration, the number that it denotes lies within the bounds, and
/// its length does, as far as the schema asks for any of these.
pub proof fn law_valid_scalar(
    n: NodeView,
    s: SchemaView,
    path: Seq<char>,
    numbers: Seq<NumberView>,
)
    requires
        n is Scalar,
    ensures
        violations(n, s, path, numbers).len() == 0 <==> ({
            let text = n->Scalar_value;
            &&& s.types matches Some(types) ==> exists|i: int|
                0 <= i < types.len() && valid(n, only_type(#[trigger] types[i]), numbers)
            &&& s.const_value matches Some(t) ==> t == text
            &&& s.enum_values matches Some(texts) ==> texts.contains(text)
            &&& s.min_length matches Some(m) ==> m <= text.len()
            &&& s.max_length matches Some(m) ==> text.len() <= m
            &&& s.minimum matches Some(t) ==> (number_of(numbers, text, 0) matches Some(x) ==> (
            number_of(numbers, t, 0) matches Some(y) ==> y.order <= x.order))
            &&& s.maximum matches Some(t) ==> (number_of(numbers, text, 0) matches Some(x) ==> (
            number_of(numbers, t, 0) matches Some(y) ==> x.order <= y.order))
        }),
{
    lemma_types(n, s, numbers);
}

/// The types of a schema, one by one.
proof fn lemma_types(n: NodeView, s: SchemaView, numbers: Seq<NumberView>)
    ensures
        !crate::schema::validate::wrong_type(n, s) <==> (s.types matches Some(types) ==> exists|
            i: int,
        |
            0 <= i < types.len() && valid(n, only_type(#[trigger] types[i]), numbers)),
{
    if let Some(types) = s.types {
        let actual = crate::schema::validate::type_of(n);
        assert forall|i: int| 0 <= i < types.len() implies valid(
            n,
            only_type(#[trigger] types[i]),
            numbers,
        ) == crate::schema::validate::satisfies(types[i], actual) by {
            lemma_only_type(n, types[i], numbers);
        }
        if crate::schema::validate::satisfies_any(types, actual) {
            let i = choose|i: int|
                0 <= i < types.len() && crate::schema::validate::satisfies(
                    #[trigger] types[i],
                    actual,
                );
            assert(valid(n, only_type(types[i]), numbers));
        } else {
            assert forall|i: int| 0 <= i < types.len() implies !valid(
                n,
                only_type(#[trigger] types[i]),
                numbers,
            ) by {
                assert(!crate::schema::validate::satisfies(types[i], actual));
            }
        }
    }
}

/// A sequence is valid exactly if its type is allowed, no constant is asked for, the number
/// of its items lies within the bounds, and each item is valid against the schema for
/// items.
pub proof fn law_valid_sequence(
    n: NodeView,
    s: SchemaView,
    path: Seq<char>,
    numbers: Seq<NumberView>,
)
    requires
        n is Sequence,
    ensures
        violations(n, s, path, numbers).len() == 0 <==> ({
            let items = n->Sequence_items;
            &&& s.types matches Some(types) ==> types.contains(JsonType::Array)
            &&& s.const_value is None
            &&& s.min_items matches Some(m) ==> m <= items.len()
            &&& s.max_items matches Some(m) ==> items.len() <= m
            &&& s.items matches Some(sub) ==> forall|i: int|
                0 <= i < items.len() ==> violations(
                    #[trigger] items[i],
                    *sub,
                    path + "/"@ + crate::text::decimal(i as nat),
                    numbers,
                ).len() == 0
        }),
{
    lemma_types(n, s, numbers);
    let items = n->Sequence_items;
    if let Some(types) = s.types {
        assert forall|i: int| 0 <= i < types.len() implies valid(
            n,
            only_type(#[trigger] types[i]),
            numbers,
        ) == (types[i] is Array) by {
            law_collection_types(n, types[i], numbers);
        }
        if types.contains(JsonType::Array) {
            let i = choose|i: int| 0 <= i < types.len() && types[i] == JsonType::Array;
            assert(valid(n, only_type(types[i]), numbers));
        }
    }
    if let Some(sub) = s.items {
        lemma_item_failures(items, items.len(), *sub, path, numbers);
    }
}

/// A mapping is valid exactly if its type is allowed, no constant is asked for, the number
/// of its entries lies within the bounds, each required name is the key of an entry, each
/// entry whose key has a schema is valid against it, and, where no others are allowed, each
/// entry has such a key.
pub proof fn law_valid_mapping(
    n: NodeView,
    s: SchemaView,
    path: Seq<char>,
    numbers: Seq<NumberView>,
)
    requires
        n is Mapping,
    ensures
        violations(n, s, path, numbers).len() == 0 <==> ({
            let entries = n->Mapping_entries;
            &&& s.types matches Some(types) ==> types.contains(JsonType::Object)
            &&& s.const_value is None
            &&& s.min_properties matches Some(m) ==> m <= entries.len()
            &&& s.max_properties matches Some(m) ==> entries.len() <= m
            &&& forall|r: int|
                0 <= r < s.required.len() ==> exists|i: int|
                    0 <= i < entries.len() && (#[trigger] entries[i]).0 is Scalar
                        && entries[i].0->Scalar_value == #[trigger] s.required[r]
            &&& forall|i: int|
                0 <= i < entries.len() ==> ({
                    let key = if (#[trigger] entries[i]).0 is Scalar {
                        entries[i].0->Scalar_value
                    } else {
                        seq![]
                    };
                    match property_of(s.properties, key, 0) {
                        Some(sub) => violations(entries[i].1, sub, path + "/"@ + key, numbers).len()
                            == 0,
                        None => s.additional_properties != Some(false),
                    }
                })
        }),
{
    lemma_types(n, s, numbers);
    let entries = n->Mapping_entries;
    if let Some(types) = s.types {
        assert forall|i: int| 0 <= i < types.len() implies valid(
            n,
            only_type(#[trigger] types[i]),
            numbers,
        ) == (types[i] is Object) by {
            law_collection_types(n, types[i], numbers);
        }
        if types.contains(JsonType::Object) {
            let i = choose|i: int| 0 <= i < types.len() && types[i] == JsonType::Object;
            assert(valid(n, only_type(types[i]), numbers));
        }
    }
    reveal_strlit("");
    assert(""@ =~= Seq::<char>::empty());
    lemma_required(entries, s.required, s.required.len(), path, n.span());
    lemma_entry_failures(entries, entries.len(), s, path, numbers);
    assert forall|r: int| 0 <= r < s.required.len() implies has_key(
        entries,
        #[trigger] s.required[r],
    ) == (exists|i: int|
        0 <= i < entries.len() && (#[trigger] entries[i]).0 is Scalar && entries[i].0->Scalar_value
            == s.required[r]) by {
        if has_key(entries, s.required[r]) {
            let i = choose|i: int|
                0 <= i < entries.len() && (#[trigger] entries[i]).0.as_str() == Some(s.required[r]);
            assert(entries[i].0 is Scalar);
        }
        if exists|i: int|
            0 <= i < entries.len() && (#[trigger] entries[i]).0 is Scalar
                && entries[i].0->Scalar_value == s.required[r] {
            let i = choose|i: int|
                0 <= i < entries.len() && (#[trigger] entries[i]).0 is Scalar
                    && entries[i].0->Scalar_value == s.required[r];
            assert(entries[i].0.as_str() == Some(s.required[r]));
        }
    }
    assert forall|i: int| 0 <= i < entries.len() implies entry_conforms(
        #[trigger] entries[i],
        s,
        path,
        numbers,
    ) == ({
        let key = if entries[i].0 is Scalar {
            entries[i].0->Scalar_value
        } else {
            seq![]
        };
        match property_of(s.properties, key, 0) {
            Some(sub) => violations(entries[i].1, sub, path + "/"@ + key, numbers).len() == 0,
            None => s.additional_properties != Some(false),
        }
    }) by {}
}

/// The schema of a name is that of the first property with that name.
pub proof fn law_property_is_found(properties: Seq<(Seq<char>, SchemaView)>, name: Seq<char>)
    ensures
        match property_of(properties, name, 0) {
            Some(sub) => exists|i: int|
                0 <= i < properties.len() && (#[trigger] properties[i]) == (name, sub),
            None => forall|i: int|
                0 <= i < properties.len() ==> (#[trigger] properties[i]).0 != name,
        },
{
    lemma_property_from(properties, name, 0);
}

proof fn lemma_property_from(properties: Seq<(Seq<char>, SchemaView)>, name: Seq<char>, j: int)
    requires
        0 <= j,
    ensures
        match property_of(properties, name, j) {
            Some(sub) => exists|i: int|
                j <= i < properties.len() && (#[trigger] properties[i]) == (name, sub),
            None => forall|i: int|
                j <= i < properties.len() ==> (#[trigger] properties[i]).0 != name,
        },
    decreases properties.len() - j,
{
    if j < properties.len() {
        if properties[j].0 == name {
            assert(properties[j] == (name, properties[j].1));
        } else {
            lemma_property_from(properties, name, j + 1);
        }
    }
}

/// What a text denotes is taken from the first entry for that text.
pub proof fn law_number_is_looked_up(numbers: Seq<NumberView>, text: Seq<char>)
    ensures
        match number_of(numbers, text, 0) {
            Some(x) => x.text == text && numbers.contains(x),
            None => forall|i: int| 0 <= i < numbers.len() ==> (#[trigger] numbers[i]).text != text,
        },
{
    lemma_number_from(numbers, text, 0);
}

proof fn lemma_number_from(numbers: Seq<NumberView>, text: Seq<char>, j: int)
    requires
        0 <= j,
    ensures
        match number_of(numbers, text, j) {
            Some(x) => x.text == text && numbers.contains(x),
            None => forall|i: int| j <= i < numbers.len() ==> (#[trigger] numbers[i]).text != text,
        },
    decreases numbers.len() - j,
{
    if j < numbers.len() && numbers[j].text != text {
        lemma_number_from(numbers, text, j + 1);
    } else if j < numbers.len() {
        assert(numbers.contains(numbers[j]));
    }
}

// ─── What is reported ───────────────────────────────────────────────

/// Whether one failure is reported, at the node itself and in the given words.
pub open spec fn reports(
    n: NodeView,
    s: SchemaView,
    path: Seq<char>,
    numbers: Seq<NumberView>,
    message: Seq<char>,
) -> bool {
    violations(n, s, path, numbers) == seq![SchemaErrorView { path, span: n.span(), message }]
}

/// The schema without keywords.
pub open spec fn anything() -> SchemaView {
    SchemaView { types: None, ..only_type(JsonType::Null) }
}

/// What is reported of a scalar that fails one keyword.
pub proof fn law_scalar_failures(
    n: NodeView,
    path: Seq<char>,
    numbers: Seq<NumberView>,
    text: Seq<char>,
    size: usize,
)
    requires
        n is Scalar,
    ensures
        n->Scalar_value != text ==> reports(
            n,
            SchemaView { const_value: Some(text), ..anything() },
            path,
            numbers,
            "value must equal const "@ + crate::schema::validate::debug_text(text),
        ),
        n->Scalar_value != text ==> reports(
            n,
            SchemaView { enum_values: Some(seq![text]), ..anything() },
            path,
            numbers,
            "value "@ + crate::schema::validate::debug_text(n->Scalar_value) + " is not one of ["@
                + crate::schema::validate::debug_text(text) + "]"@,
        ),
        n->Scalar_value.len() < size ==> reports(
            n,
            SchemaView { min_length: Some(size), ..anything() },
            path,
            numbers,
            "string length "@ + crate::text::decimal(n->Scalar_value.len())
                + " is less than minLength "@ + crate::text::decimal(size as nat),
        ),
        n->Scalar_value.len() > size ==> reports(
            n,
            SchemaView { max_length: Some(size), ..anything() },
            path,
            numbers,
            "string length "@ + crate::text::decimal(n->Scalar_value.len())
                + " exceeds maxLength "@ + crate::text::decimal(size as nat),
        ),
        number_of(numbers, n->Scalar_value, 0) matches Some(x) ==> (number_of(
            numbers,
            text,
            0,
        ) matches Some(y) ==> (x.order < y.order ==> reports(
            n,
            SchemaView { minimum: Some(text), ..anything() },
            path,
            numbers,
            "value "@ + x.shown + " is less than minimum "@ + y.shown,
        )) && (x.order > y.order ==> reports(
            n,
            SchemaView { maximum: Some(text), ..anything() },
            path,
            numbers,
            "value "@ + x.shown + " exceeds maximum "@ + y.shown,
        ))),
{
    let v = n->Scalar_value;
    let one = seq![text];
    assert(one[0] == text);
    reveal_with_fuel(crate::schema::validate::quoted_list, 2);
    assert(one.contains(v) ==> v == text);
    let s1 = SchemaView { const_value: Some(text), ..anything() };
    let s2 = SchemaView { enum_values: Some(one), ..anything() };
    let s3 = SchemaView { min_length: Some(size), ..anything() };
    let s4 = SchemaView { max_length: Some(size), ..anything() };
    let s5 = SchemaView { minimum: Some(text), ..anything() };
    let s6 = SchemaView { maximum: Some(text), ..anything() };
    if v != text {
        assert(violations(n, s1, path, numbers) =~= seq![
            SchemaErrorView {
                path,
                span: n.span(),
                message: "value must equal const "@ + crate::schema::validate::debug_text(text),
            },
        ]);
        assert(violations(n, s2, path, numbers) =~= seq![
            SchemaErrorView {
                path,
                span: n.span(),
                message: "value "@ + crate::schema::validate::debug_text(v) + " is not one of ["@
                    + crate::schema::validate::debug_text(text) + "]"@,
            },
        ]);
    }
    if v.len() < size {
        assert(violations(n, s3, path, numbers) =~= seq![violations(n, s3, path, numbers)[0]]);
    }
    if v.len() > size {
        assert(violations(n, s4, path, numbers) =~= seq![violations(n, s4, path, numbers)[0]]);
    }
    if let Some(x) = number_of(numbers, v, 0) {
        if let Some(y) = number_of(numbers, text, 0) {
            if x.order < y.order {
                assert(violations(n, s5, path, numbers) =~= seq![
                    violations(n, s5, path, numbers)[0],
                ]);
            }
            if x.order > y.order {
                assert(violations(n, s6, path, numbers) =~= seq![
                    violations(n, s6, path, numbers)[0],
                ]);
            }
        }
    }
}

/// A node of another type than the one asked for is reported with the names of both.
pub proof fn law_type_failure(n: NodeView, ty: JsonType, path: Seq<char>, numbers: Seq<NumberView>)
    requires
        !valid(n, only_type(ty), numbers),
    ensures
        exists|actual: JsonType|
            #![trigger crate::schema::validate::name_of_type(actual)]
            (valid(n, only_type(actual), numbers) && reports(
                n,
                only_type(ty),
                path,
                numbers,
                "expected type "@ + crate::schema::validate::name_of_type(ty) + " but got "@
                    + crate::schema::validate::name_of_type(actual),
            )),
{
    let actual = crate::schema::validate::type_of(n);
    lemma_only_type(n, ty, numbers);
    lemma_only_type(n, actual, numbers);
    reveal_with_fuel(crate::schema::validate::type_names, 2);
    assert(only_type(ty).types->0[0] == ty);
    assert(crate::schema::validate::wrong_type(n, only_type(ty)));
    let message = "expected type "@ + crate::schema::validate::name_of_type(ty) + " but got "@
        + crate::schema::validate::name_of_type(actual);
    assert(reports(n, only_type(ty), path, numbers, message));
}

/// Each type has the name that the keyword `type` knows it by.
pub proof fn law_type_names(ty: JsonType)
    ensures
        crate::schema::reading::names_type(crate::schema::validate::name_of_type(ty), ty),
{
}

/// What is reported of a sequence or a mapping with too few or too many members.
pub proof fn law_count_failures(
    n: NodeView,
    path: Seq<char>,
    numbers: Seq<NumberView>,
    size: usize,
)
    ensures
        n is Sequence && n->Sequence_items.len() < size ==> reports(
            n,
            SchemaView { min_items: Some(size), ..anything() },
            path,
            numbers,
            "array has "@ + crate::text::decimal(n->Sequence_items.len()) + " items"@
                + ", minimum is "@ + crate::text::decimal(size as nat),
        ),
        n is Sequence && n->Sequence_items.len() > size ==> reports(
            n,
            SchemaView { max_items: Some(size), ..anything() },
            path,
            numbers,
            "array has "@ + crate::text::decimal(n->Sequence_items.len()) + " items"@
                + ", maximum is "@ + crate::text::decimal(size as nat),
        ),
        n is Mapping && n->Mapping_entries.len() < size ==> reports(
            n,
            SchemaView { min_properties: Some(size), ..anything() },
            path,
            numbers,
            "object has "@ + crate::text::decimal(n->Mapping_entries.len()) + " properties"@
                + ", minimum is "@ + crate::text::decimal(size as nat),
        ),
        n is Mapping && n->Mapping_entries.len() > size ==> reports(
            n,
            SchemaView { max_properties: Some(size), ..anything() },
            path,
            numbers,
            "object has "@ + crate::text::decimal(n->Mapping_entries.len()) + " properties"@
                + ", maximum is "@ + crate::text::decimal(size as nat),
        ),
{
    let s1 = SchemaView { min_items: Some(size), ..anything() };
    let s2 = SchemaView { max_items: Some(size), ..anything() };
    let s3 = SchemaView { min_properties: Some(size), ..anything() };
    let s4 = SchemaView { max_properties: Some(size), ..anything() };
    if n is Sequence {
        if n->Sequence_items.len() < size {
            assert(violations(n, s1, path, numbers) =~= seq![violations(n, s1, path, numbers)[0]]);
        }
        if n->Sequence_items.len() > size {
            assert(violations(n, s2, path, numbers) =~= seq![violations(n, s2, path, numbers)[0]]);
        }
    }
    if n is Mapping {
        let entries = n->Mapping_entries;
        lemma_entry_failures(entries, entries.len(), s3, path, numbers);
        lemma_entry_failures(entries, entries.len(), s4, path, numbers);
        if entries.len() < size {
            assert(violations(n, s3, path, numbers) =~= seq![violations(n, s3, path, numbers)[0]]);
        }
        if entries.len() > size {
            assert(violations(n, s4, path, numbers) =~= seq![violations(n, s4, path, numbers)[0]]);
        }
    }
}

/// A required name that is missing is reported at the mapping.
pub proof fn law_missing_property(
    n: NodeView,
    name: Seq<char>,
    path: Seq<char>,
    numbers: Seq<NumberView>,
)
    requires
        n is Mapping,
        forall|i: int|
            0 <= i < n->Mapping_entries.len() ==> !((#[trigger] n->Mapping_entries[i]).0 is Scalar
                && n->Mapping_entries[i].0->Scalar_value == name),
    ensures
        reports(
            n,
            SchemaView { required: seq![name], ..anything() },
            path,
            numbers,
            "required property "@ + crate::schema::validate::debug_text(name) + " is missing"@,
        ),
{
    let s = SchemaView { required: seq![name], ..anything() };
    let entries = n->Mapping_entries;
    assert(s.required[0] == name);
    lemma_entry_failures(entries, entries.len(), s, path, numbers);
    reveal_with_fuel(required_failures, 2);
    if has_key(entries, name) {
        let i = choose|i: int|
            0 <= i < entries.len() && (#[trigger] entries[i]).0.as_str() == Some(name);
        assert(entries[i].0 is Scalar);
    }
    assert(violations(n, s, path, numbers) =~= seq![violations(n, s, path, numbers)[0]]);
}

/// Every failure of a value against the schema of its key is a failure of the mapping, and
/// every failure of an item against the schema for items is one of the sequence: reported
/// as it is, under the path of the value or item.
pub proof fn law_inner_failures_are_reported(
    n: NodeView,
    s: SchemaView,
    path: Seq<char>,
    numbers: Seq<NumberView>,
    i: int,
    sub: SchemaView,
    e: SchemaErrorView,
)
    requires
        s.types is None,
    ensures
        n is Mapping && 0 <= i < n->Mapping_entries.len() && n->Mapping_entries[i].0 is Scalar
            && property_of(s.properties, n->Mapping_entries[i].0->Scalar_value, 0) == Some(sub)
            && violations(
            n->Mapping_entries[i].1,
            sub,
            path + "/"@ + n->Mapping_entries[i].0->Scalar_value,
            numbers,
        ).contains(e) ==> violations(n, s, path, numbers).contains(e),
        n is Sequence && 0 <= i < n->Sequence_items.len() && s.items == Some(Box::new(sub))
            && violations(
            n->Sequence_items[i],
            sub,
            path + "/"@ + crate::text::decimal(i as nat),
            numbers,
        ).contains(e) ==> violations(n, s, path, numbers).contains(e),
{
    if n is Mapping && 0 <= i < n->Mapping_entries.len() && n->Mapping_entries[i].0 is Scalar
        && property_of(s.properties, n->Mapping_entries[i].0->Scalar_value, 0) == Some(sub)
        && violations(
        n->Mapping_entries[i].1,
        sub,
        path + "/"@ + n->Mapping_entries[i].0->Scalar_value,
        numbers,
    ).contains(e) {
        let entries = n->Mapping_entries;
        lemma_entry_contains(entries, entries.len(), s, path, numbers, i, e);
        let part = entry_failures(entries, entries.len(), s, path, numbers);
        lemma_ends_with(violations(n, s, path, numbers), part, e);
    }
    if n is Sequence && 0 <= i < n->Sequence_items.len() && s.items == Some(Box::new(sub))
        && violations(
        n->Sequence_items[i],
        sub,
        path + "/"@ + crate::text::decimal(i as nat),
        numbers,
    ).contains(e) {
        let items = n->Sequence_items;
        lemma_item_contains(items, items.len(), sub, path, numbers, i, e);
        let part = item_failures(items, items.len(), sub, path, numbers);
        lemma_ends_with(violations(n, s, path, numbers), part, e);
    }
}

/// What a part at the end holds, the whole holds.
proof fn lemma_ends_with(whole: Seq<SchemaErrorView>, part: Seq<SchemaErrorView>, e: SchemaErrorView)
    requires
        part.contains(e),
        whole.len() >= part.len(),
        whole.subrange(whole.len() - part.len(), whole.len() as int) =~= part,
    ensures
        whole.contains(e),
{
    let j = choose|j: int| 0 <= j < part.len() && part[j] == e;
    let k = whole.len() - part.len();
    assert(whole.subrange(k, whole.len() as int)[j] == e);
    assert(whole[k + j] == e);
}

proof fn lemma_concat_contains(
    a: Seq<SchemaErrorView>,
    b: Seq<SchemaErrorView>,
    e: SchemaErrorView,
)
    requires
        a.contains(e) || b.contains(e),
    ensures
        (a + b).contains(e),
{
    if a.contains(e) {
        let j = choose|j: int| 0 <= j < a.len() && a[j] == e;
        assert((a + b)[j] == e);
    } else {
        let j = choose|j: int| 0 <= j < b.len() && b[j] == e;
        assert((a + b)[a.len() + j] == e);
    }
}

proof fn lemma_entry_contains(
    entries: Seq<(NodeView, NodeView)>,
    k: nat,
    s: SchemaView,
    path: Seq<char>,
    numbers: Seq<NumberView>,
    i: int,
    e: SchemaErrorView,
)
    requires
        0 <= i < k <= entries.len(),
        entries[i].0 is Scalar,
        property_of(s.properties, entries[i].0->Scalar_value, 0) matches Some(sub) && violations(
            entries[i].1,
            sub,
            path + "/"@ + entries[i].0->Scalar_value,
            numbers,
        ).contains(e),
    ensures
        entry_failures(entries, k, s, path, numbers).contains(e),
    decreases k,
{
    let before = entry_failures(entries, (k - 1) as nat, s, path, numbers);
    let all = entry_failures(entries, k, s, path, numbers);
    let more = all.subrange(before.len() as int, all.len() as int);
    assert(all =~= before + more);
    if i < k - 1 {
        lemma_entry_contains(entries, (k - 1) as nat, s, path, numbers, i, e);
    } else {
        let sub = property_of(s.properties, entries[i].0->Scalar_value, 0)->0;
        assert(key_text(entries[i].0) == entries[i].0->Scalar_value);
        assert(more =~= violations(
            entries[i].1,
            sub,
            path + "/"@ + entries[i].0->Scalar_value,
            numbers,
        ));
    }
    lemma_concat_contains(before, more, e);
}

proof fn lemma_item_contains(
    items: Seq<NodeView>,
    k: nat,
    s: SchemaView,
    path: Seq<char>,
    numbers: Seq<NumberView>,
    i: int,
    e: SchemaErrorView,
)
    requires
        0 <= i < k <= items.len(),
        violations(items[i], s, path + "/"@ + crate::text::decimal(i as nat), numbers).contains(e),
    ensures
        item_failures(items, k, s, path, numbers).contains(e),
    decreases k,
{
    let before = item_failures(items, (k - 1) as nat, s, path, numbers);
    let more = violations(
        items[k - 1],
        s,
        path + "/"@ + crate::text::decimal((k - 1) as nat),
        numbers,
    );
    if i < k - 1 {
        lemma_item_contains(items, (k - 1) as nat, s, path, numbers, i, e);
    }
    lemma_concat_contains(before, more, e);
}

} // verus!
