//! Argument values and the argument map handed to the renderer.
//!
//! Callers supply dynamically typed values; here they are a closed
//! variant type with one string-coercion rule, applied uniformly when a
//! value is interpolated into a template.

use vstd::prelude::*;
use vstd::string::*;
use crate::text::{str_eq, str_to_chars};

verus! {

/// A caller-supplied argument value.
pub enum ArgValue {
    /// A text value.
    Str(String),
    /// An integer value.
    Int(i64),
    /// A boolean value.
    Bool(bool),
    /// An explicit null.
    Null,
}

/// The mathematical model of an argument value.
pub enum Value {
    Str(Seq<char>),
    Int(int),
    Bool(bool),
    Null,
}

impl View for ArgValue {
    type V = Value;

    open spec fn view(&self) -> Value {
        match self {
            ArgValue::Str(s) => Value::Str(s@),
            ArgValue::Int(i) => Value::Int(*i as int),
            ArgValue::Bool(b) => Value::Bool(*b),
            ArgValue::Null => Value::Null,
        }
    }
}

/// The decimal digit character for `d` in `0..10`.
pub open spec fn dec_digit(d: int) -> char {
    if d == 0 {
        '0'
    } else if d == 1 {
        '1'
    } else if d == 2 {
        '2'
    } else if d == 3 {
        '3'
    } else if d == 4 {
        '4'
    } else if d == 5 {
        '5'
    } else if d == 6 {
        '6'
    } else if d == 7 {
        '7'
    } else if d == 8 {
        '8'
    } else {
        '9'
    }
}

/// The decimal representation of a natural number, without sign and
/// without leading zeros (a single `0` for zero).
pub open spec fn dec_nat(n: nat) -> Seq<char>
    decreases n,
{
    if n < 10 {
        seq![dec_digit(n as int)]
    } else {
        dec_nat(n / 10).push(dec_digit((n % 10) as int))
    }
}

/// The decimal representation of an integer: a `-` sign for negative
/// values, then the digits of the magnitude.
pub open spec fn dec_int(i: int) -> Seq<char> {
    if i < 0 {
        seq!['-'] + dec_nat((-i) as nat)
    } else {
        dec_nat(i as nat)
    }
}

/// The textual form of a value, as interpolated into a template:
/// strings verbatim, integers in decimal, booleans as `true`/`false`,
/// null as `null`.
pub open spec fn coerce(v: Value) -> Seq<char> {
    match v {
        Value::Str(s) => s,
        Value::Int(i) => dec_int(i),
        Value::Bool(b) => if b {
            seq!['t', 'r', 'u', 'e']
        } else {
            seq!['f', 'a', 'l', 's', 'e']
        },
        Value::Null => seq!['n', 'u', 'l', 'l'],
    }
}

/// Whether a value turns a conditional block on: a defined, non-empty
/// value. Empty strings, zero, `false` and null are all off.
pub open spec fn truthy_value(v: Value) -> bool {
    match v {
        Value::Str(s) => s.len() > 0,
        Value::Int(i) => i != 0,
        Value::Bool(b) => b,
        Value::Null => false,
    }
}

/// The decimal digits of `n`, as characters.
fn dec_chars_u64(n: u64) -> (r: Vec<char>)
    ensures
        r@ == dec_nat(n as nat),
{
    let mut acc: Vec<char> = Vec::new();
    let mut x: u64 = n;
    while x >= 10
        invariant
            dec_nat(n as nat) == dec_nat(x as nat) + acc@,
        decreases x,
    {
        let d = digit_char(x % 10);
        acc.insert(0, d);
        proof {
            assert(dec_nat(x as nat) == dec_nat((x as nat) / 10).push(dec_digit(
                ((x as nat) % 10) as int,
            )));
            assert(dec_nat((x as nat) / 10) + (seq![dec_digit(((x as nat) % 10) as int)]
                + acc@.drop_first()) =~= dec_nat(x as nat) + acc@.drop_first());
            assert((x / 10) as nat == (x as nat) / 10);
        }
        x = x / 10;
    }
    let d = digit_char(x);
    acc.insert(0, d);
    proof {
        assert(dec_nat(x as nat) =~= seq![dec_digit(x as int)]);
        assert(seq![dec_digit(x as int)] + acc@.drop_first() =~= acc@);
    }
    acc
}

/// The character for a digit in `0..10`.
fn digit_char(d: u64) -> (c: char)
    requires
        d < 10,
    ensures
        c == dec_digit(d as int),
{
    if d == 0 {
        '0'
    } else if d == 1 {
        '1'
    } else if d == 2 {
        '2'
    } else if d == 3 {
        '3'
    } else if d == 4 {
        '4'
    } else if d == 5 {
        '5'
    } else if d == 6 {
        '6'
    } else if d == 7 {
        '7'
    } else if d == 8 {
        '8'
    } else {
        '9'
    }
}

impl ArgValue {
    /// The textual form of this value, per the coercion rule.
    pub fn to_text(&self) -> (r: Vec<char>)
        ensures
            r@ == coerce(self@),
    {
        match self {
            ArgValue::Str(s) => str_to_chars(s.as_str()),
            ArgValue::Int(i) => {
                let iv = *i;
                if iv < 0 {
                    let mag: u64 = ((-(iv + 1)) as u64) + 1;
                    let mut r: Vec<char> = Vec::new();
                    r.push('-');
                    let mut digits = dec_chars_u64(mag);
                    assert(mag as nat == (-(iv as int)) as nat);
                    append_chars(&mut r, &digits);
                    assert(r@ =~= coerce(self@));
                    r
                } else {
                    let r = dec_chars_u64(iv as u64);
                    r
                }
            },
            ArgValue::Bool(b) => {
                if *b {
                    let r: Vec<char> = vec!['t', 'r', 'u', 'e'];
                    assert(r@ =~= seq!['t', 'r', 'u', 'e']);
                    r
                } else {
                    let r: Vec<char> = vec!['f', 'a', 'l', 's', 'e'];
                    assert(r@ =~= seq!['f', 'a', 'l', 's', 'e']);
                    r
                }
            },
            ArgValue::Null => {
                let r: Vec<char> = vec!['n', 'u', 'l', 'l'];
                assert(r@ =~= seq!['n', 'u', 'l', 'l']);
                r
            },
        }
    }

    /// Whether this value turns a conditional block on.
    pub fn is_truthy(&self) -> (r: bool)
        ensures
            r == truthy_value(self@),
    {
        match self {
            ArgValue::Str(s) => s.as_str().unicode_len() > 0,
            ArgValue::Int(i) => *i != 0,
            ArgValue::Bool(b) => *b,
            ArgValue::Null => false,
        }
    }
}

/// Append all characters of `src` to `dst`.
pub fn append_chars(dst: &mut Vec<char>, src: &Vec<char>)
    ensures
        final(dst)@ == old(dst)@ + src@,
{
    let mut i: usize = 0;
    while i < src.len()
        invariant
            i <= src@.len(),
            dst@ == old(dst)@ + src@.subrange(0, i as int),
        decreases src@.len() - i,
    {
        dst.push(src[i]);
        i = i + 1;
        assert(dst@ =~= old(dst)@ + src@.subrange(0, i as int));
    }
    assert(dst@ =~= old(dst)@ + src@);
}

/// The map described by an association list: later bindings shadow
/// earlier ones.
pub open spec fn map_of(pairs: Seq<(Seq<char>, Value)>) -> Map<Seq<char>, Value>
    decreases pairs.len(),
{
    if pairs.len() == 0 {
        Map::empty()
    } else {
        map_of(pairs.drop_last()).insert(pairs.last().0, pairs.last().1)
    }
}

/// The named arguments handed to a render call: an insertion-ordered
/// association list viewed as a map.
pub struct PromptArgs {
    pub pairs: Vec<(String, ArgValue)>,
}

impl View for PromptArgs {
    type V = Map<Seq<char>, Value>;

    open spec fn view(&self) -> Map<Seq<char>, Value> {
        map_of(self.pairs@.map_values(|p: (String, ArgValue)| (p.0@, p.1@)))
    }
}

/// `map_of` contains a key exactly when some pair binds it, and maps it
/// to the value of the last such pair.
proof fn lemma_map_of_lookup(pairs: Seq<(Seq<char>, Value)>, k: Seq<char>)
    ensures
        map_of(pairs).contains_key(k) <==> exists|i: int|
            0 <= i < pairs.len() && pairs[i].0 == k,
        forall|i: int|
            0 <= i < pairs.len() && pairs[i].0 == k && (forall|j: int|
                i < j < pairs.len() ==> pairs[j].0 != k) ==> map_of(pairs)[k] == pairs[i].1,
    decreases pairs.len(),
{
    if pairs.len() > 0 {
        let rest = pairs.drop_last();
        let lst = pairs.last();
        lemma_map_of_lookup(rest, k);
        assert(forall|j: int| 0 <= j < rest.len() ==> rest[j] == #[trigger] pairs[j]);
        if map_of(pairs).contains_key(k) {
            if lst.0 == k {
                assert(pairs[pairs.len() - 1].0 == k);
            } else {
                let i = choose|i: int| 0 <= i < rest.len() && rest[i].0 == k;
                assert(pairs[i].0 == k);
            }
        }
        if exists|i: int| 0 <= i < pairs.len() && pairs[i].0 == k {
            let i = choose|i: int| 0 <= i < pairs.len() && pairs[i].0 == k;
            if i < pairs.len() - 1 {
                assert(rest[i].0 == k);
            }
            assert(map_of(pairs).contains_key(k));
        }
        assert forall|i: int|
            0 <= i < pairs.len() && pairs[i].0 == k && (forall|j: int|
                i < j < pairs.len() ==> pairs[j].0 != k) implies map_of(pairs)[k]
            == pairs[i].1 by {
            if i == pairs.len() - 1 {
                assert(map_of(pairs)[k] == lst.1);
            } else {
                assert(pairs[pairs.len() - 1].0 != k);
                assert(rest[i].0 == k);
                assert(forall|j: int| i < j < rest.len() ==> rest[j].0 != k);
                assert(map_of(rest)[k] == rest[i].1);
                assert(map_of(pairs)[k] == map_of(rest)[k]);
            }
        }
    }
}

impl PromptArgs {
    /// An empty argument set.
    pub fn new() -> (r: PromptArgs)
        ensures
            r@ == Map::<Seq<char>, Value>::empty(),
    {
        PromptArgs { pairs: Vec::new() }
    }

    /// Bind `name` to `value`, shadowing any earlier binding.
    pub fn insert(&mut self, name: String, value: ArgValue)
        ensures
            final(self)@ == old(self)@.insert(name@, value@),
    {
        let ghost before = self.pairs@.map_values(|p: (String, ArgValue)| (p.0@, p.1@));
        self.pairs.push((name, value));
        proof {
            let after = self.pairs@.map_values(|p: (String, ArgValue)| (p.0@, p.1@));
            assert(after.drop_last() =~= before);
        }
    }

    /// Whether `name` is bound.
    pub fn contains_key(&self, name: &str) -> (r: bool)
        ensures
            r == self@.contains_key(name@),
    {
        let ghost mp = self.pairs@.map_values(|p: (String, ArgValue)| (p.0@, p.1@));
        let mut i: usize = 0;
        while i < self.pairs.len()
            invariant
                i <= self.pairs@.len(),
                mp == self.pairs@.map_values(|p: (String, ArgValue)| (p.0@, p.1@)),
                forall|j: int| 0 <= j < i ==> self.pairs@[j].0@ != name@,
            decreases self.pairs@.len() - i,
        {
            if str_eq(self.pairs[i].0.as_str(), name) {
                proof {
                    lemma_map_of_lookup(mp, name@);
                    assert(mp[i as int].0 == name@);
                }
                return true;
            }
            i = i + 1;
        }
        proof {
            lemma_map_of_lookup(mp, name@);
            assert(forall|j: int| 0 <= j < mp.len() ==> #[trigger] mp[j].0 == self.pairs@[j].0@);
        }
        false
    }

    /// The value bound to `name`, if any.
    pub fn get(&self, name: &str) -> (r: Option<&ArgValue>)
        ensures
            match r {
                Some(v) => self@.contains_key(name@) && v@ == self@[name@],
                None => !self@.contains_key(name@),
            },
    {
        let ghost mp = self.pairs@.map_values(|p: (String, ArgValue)| (p.0@, p.1@));
        let mut i: usize = self.pairs.len();
        while i > 0
            invariant
                i <= self.pairs@.len(),
                mp == self.pairs@.map_values(|p: (String, ArgValue)| (p.0@, p.1@)),
                forall|j: int| i <= j < self.pairs@.len() ==> self.pairs@[j].0@ != name@,
            decreases i,
        {
            i = i - 1;
            if str_eq(self.pairs[i].0.as_str(), name) {
                proof {
                    lemma_map_of_lookup(mp, name@);
                    assert(forall|j: int|
                        0 <= j < mp.len() ==> #[trigger] mp[j].0 == self.pairs@[j].0@);
                    assert(mp[i as int].0 == name@);
                    assert(forall|j: int| i < j < mp.len() ==> mp[j].0 != name@);
                    assert(map_of(mp)[name@] == mp[i as int].1);
                }
                return Some(&self.pairs[i].1);
            }
        }
        proof {
            lemma_map_of_lookup(mp, name@);
            assert(forall|j: int| 0 <= j < mp.len() ==> #[trigger] mp[j].0 == self.pairs@[j].0@);
        }
        None
    }
}

} // verus!
