//! JSON documents, as values.
//!
//! Reading the text is the work of `serde_json`; everything after that works on
//! [`Json`], whose contents a contract can speak of.

use crate::double::Real;
use crate::text::same;
use vstd::prelude::*;

verus! {

/// A number, in each of the readings it has.
#[derive(Debug, Clone, Copy, PartialEq, Eq, Structural)]
pub struct Number {
    /// Its value, when it is a whole number from zero to the 64-bit limit.
    pub unsigned: Option<u64>,
    /// Its value, when it is a whole number within the signed 64-bit limits.
    pub signed: Option<i64>,
    /// The nearest double.
    pub real: Option<Real>,
}

/// A JSON document.
#[derive(Debug)]
pub enum Json {
    Null,
    Bool(bool),
    Number(Number),
    Text(String),
    Array(Vec<Json>),
    Object(Vec<(String, Json)>),
}

/// A JSON document, as the values it holds.
#[verifier::ext_equal]
pub enum Tree {
    Null,
    Bool(bool),
    Number(Number),
    Text(Seq<char>),
    Array(Seq<Tree>),
    Object(Seq<(Seq<char>, Tree)>),
}

/// A parsed document of `serde_json`.
#[verifier::external_type_specification]
#[verifier::external_body]
pub struct ExValue(serde_json::Value);

/// What `serde_json::from_slice` makes of some bytes: a document, or what it
/// has to say against them.
pub uninterp spec fn json_read(bytes: Seq<u8>) -> Result<Tree, Seq<char>>;

/// What a parsed document of `serde_json` holds.
pub uninterp spec fn value_contents(value: serde_json::Value) -> Tree;

/// `serde_json::from_slice`: the outcome depends on the bytes alone. Which
/// bytes are a document, and the words of the complaint, are left to the crate.
#[verifier::external_body]
fn read_value(bytes: &[u8]) -> (r: Result<serde_json::Value, String>)
    ensures
        match r {
            Ok(v) => json_read(bytes@) == Ok::<Tree, Seq<char>>(value_contents(v)),
            Err(e) => json_read(bytes@) == Err::<Tree, Seq<char>>(e@),
        },
{
    serde_json::from_slice(bytes).map_err(|e| e.to_string())
}

/// The outermost layer of a parsed document.
enum Layer<'a> {
    Null,
    Bool(bool),
    Number(Number),
    Text(&'a String),
    Array(&'a Vec<serde_json::Value>),
    Object(Vec<(&'a String, &'a serde_json::Value)>),
}

impl<'a> Layer<'a> {
    /// The document, as the values it holds.
    spec fn tree(self) -> Tree {
        match self {
            Layer::Null => Tree::Null,
            Layer::Bool(b) => Tree::Bool(b),
            Layer::Number(n) => Tree::Number(n),
            Layer::Text(s) => Tree::Text(s@),
            Layer::Array(items) => Tree::Array(
                Seq::new(items@.len(), |i: int| value_contents(items@[i])),
            ),
            Layer::Object(fields) => Tree::Object(
                Seq::new(fields@.len(), |i: int| (fields@[i].0@, value_contents(*fields@[i].1))),
            ),
        }
    }
}

/// The variants of `serde_json::Value` told apart, and of a number what
/// `Number::as_u64`, `as_i64` and `as_f64` give: a document holds what its
/// variant says, a list what its items hold, an object what its fields hold in
/// the order the map has them.
#[verifier::external_body]
fn layer<'a>(value: &'a serde_json::Value) -> (l: Layer<'a>)
    ensures
        l.tree() == value_contents(*value),
{
    match value {
        serde_json::Value::Null => Layer::Null,
        serde_json::Value::Bool(b) => Layer::Bool(*b),
        serde_json::Value::Number(n) => Layer::Number(Number {
            unsigned: n.as_u64(),
            signed: n.as_i64(),
            real: n.as_f64().map(|x| Real { bits: x.to_bits() }),
        }),
        serde_json::Value::String(s) => Layer::Text(s),
        serde_json::Value::Array(items) => Layer::Array(items),
        serde_json::Value::Object(map) => Layer::Object(map.iter().collect()),
    }
}

/// What a parsed document holds.
fn lift(value: &serde_json::Value) -> (j: Json)
    ensures
        j.tree() == value_contents(*value),
    decreases value_contents(*value),
{
    let ghost whole = value_contents(*value);
    match layer(value) {
        Layer::Null => Json::Null,
        Layer::Bool(b) => Json::Bool(b),
        Layer::Number(n) => Json::Number(n),
        Layer::Text(s) => Json::Text(s.clone()),
        Layer::Array(items) => {
            let mut out: Vec<Json> = Vec::new();
            let mut i: usize = 0;
            while i < items.len()
                invariant
                    i <= items.len(),
                    whole == value_contents(*value),
                    whole == Layer::Array(items).tree(),
                    out@.len() == i,
                    forall|k: int|
                        0 <= k < i ==> (#[trigger] out@[k]).tree() == value_contents(items@[k]),
                decreases items.len() - i,
            {
                proof {
                    lemma_part_is_smaller(whole, i as int);
                }
                assert(whole->Array_0[i as int] == value_contents(items@[i as int]));
                out.push(lift(&items[i]));
                i = i + 1;
            }
            let j = Json::Array(out);
            assert(j.tree()->Array_0 =~= whole->Array_0);
            j
        },
        Layer::Object(fields) => {
            let mut out: Vec<(String, Json)> = Vec::new();
            let mut i: usize = 0;
            while i < fields.len()
                invariant
                    i <= fields.len(),
                    whole == value_contents(*value),
                    whole == Layer::Object(fields).tree(),
                    out@.len() == i,
                    forall|k: int|
                        0 <= k < i ==> (#[trigger] out@[k]).0@ == fields@[k].0@
                            && out@[k].1.tree() == value_contents(*fields@[k].1),
                decreases fields.len() - i,
            {
                proof {
                    lemma_part_is_smaller(whole, i as int);
                }
                assert(whole->Object_0[i as int].1 == value_contents(*fields@[i as int].1));
                let held = lift(fields[i].1);
                out.push((fields[i].0.clone(), held));
                i = i + 1;
            }
            let j = Json::Object(out);
            assert(j.tree()->Object_0 =~= whole->Object_0);
            j
        },
    }
}

proof fn lemma_part_is_smaller(t: Tree, i: int)
    ensures
        t is Array && 0 <= i < t->Array_0.len() ==> decreases_to!(t => t->Array_0[i]),
        t is Object && 0 <= i < t->Object_0.len() ==> decreases_to!(t => t->Object_0[i].1),
{
    if t is Array && 0 <= i < t->Array_0.len() {
        assert(decreases_to!(t => t->Array_0));
        assert(decreases_to!(t->Array_0 => t->Array_0[i]));
    }
    if t is Object && 0 <= i < t->Object_0.len() {
        assert(decreases_to!(t => t->Object_0));
        assert(decreases_to!(t->Object_0 => t->Object_0[i]));
        assert(decreases_to!(t->Object_0[i] => t->Object_0[i].1));
    }
}

/// Every double as itself.
pub open spec fn exact() -> spec_fn(Real) -> Real {
    |x: Real| x
}

/// Whether a number that was written is read as another: a whole number as
/// itself, signed too where it fits, and a fraction as its text is read `back`.
pub open spec fn number_reads(w: Number, r: Number, back: spec_fn(Real) -> Real) -> bool {
    match w.unsigned {
        Some(n) => r.unsigned == Some(n) && r.signed == if n <= i64::MAX {
            Some(n as i64)
        } else {
            None
        },
        None => match w.signed {
            Some(i) => r.signed == Some(i) && (i < 0 ==> r.unsigned is None),
            None => r.unsigned is None && r.signed is None && r.real == match w.real {
                Some(x) => Some(back(x)),
                None => None,
            },
        },
    }
}

/// Whether a number can be written: a fraction is finite.
pub open spec fn is_writable(n: Number) -> bool {
    n.unsigned is Some || n.signed is Some || (n.real matches Some(x) && x.finite())
}

/// Whether no two fields have one name.
pub open spec fn are_named_apart(fields: Seq<(Seq<char>, Tree)>) -> bool {
    forall|i: int, j: int|
        0 <= i < j < fields.len() ==> (#[trigger] fields[i]).0 != (#[trigger] fields[j]).0
}

/// Whether a document that was written is read as another: as itself, but for the
/// order of the fields of an object, which a reader need not keep, and for
/// fractions. One that is not finite has no text and is read as nothing. Any other
/// is read `back` as a double that its text leads to: the one that was written, or,
/// where a reader trades the last place for speed, one beside it.
pub open spec fn reads_by(w: Tree, r: Tree, back: spec_fn(Real) -> Real) -> bool
    decreases w,
{
    match w {
        Tree::Number(n) => if is_writable(n) {
            r matches Tree::Number(x) && number_reads(n, x, back)
        } else {
            r is Null
        },
        Tree::Array(a) => r matches Tree::Array(b) && a.len() == b.len() && forall|i: int|
            0 <= i < a.len() ==> reads_by(#[trigger] a[i], b[i], back),
        Tree::Object(f) => r matches Tree::Object(g) && f.len() == g.len() && are_named_apart(g)
            && forall|i: int|
            0 <= i < g.len() ==> exists|j: int|
                0 <= j < f.len() && (#[trigger] f[j]).0 == (#[trigger] g[i]).0 && reads_by(
                    f[j].1,
                    g[i].1,
                    back,
                ),
        _ => w == r,
    }
}

/// Whether a document that was written is read as another, every fraction as the
/// double that was written.
pub open spec fn reads(w: Tree, r: Tree) -> bool {
    reads_by(w, r, exact())
}

/// Every field of an object that was written is read.
pub proof fn every_field_is_read(
    f: Seq<(Seq<char>, Tree)>,
    g: Seq<(Seq<char>, Tree)>,
    j: int,
    back: spec_fn(Real) -> Real,
) -> (i: int)
    requires
        are_named_apart(f),
        reads_by(Tree::Object(f), Tree::Object(g), back),
        0 <= j < f.len(),
    ensures
        0 <= i < g.len(),
        g[i].0 == f[j].0,
        reads_by(f[j].1, g[i].1, back),
{
    let a = f.map_values(|x: (Seq<char>, Tree)| x.0);
    let b = g.map_values(|x: (Seq<char>, Tree)| x.0);
    assert(a.no_duplicates());
    assert(b.no_duplicates());
    a.unique_seq_to_set();
    b.unique_seq_to_set();
    vstd::seq_lib::seq_to_set_is_finite(a);
    vstd::seq_lib::seq_to_set_is_finite(b);
    assert(b.to_set().subset_of(a.to_set())) by {
        assert forall|x: Seq<char>| b.to_set().contains(x) implies a.to_set().contains(x) by {
            let i = choose|i: int| 0 <= i < b.len() && b[i] == x;
            let k = choose|k: int|
                0 <= k < f.len() && (#[trigger] f[k]).0 == g[i].0 && reads_by(f[k].1, g[i].1, back);
            assert(a[k] == x);
        }
    }
    vstd::set_lib::lemma_subset_equality(b.to_set(), a.to_set());
    assert(a[j] == f[j].0);
    assert(b.to_set().contains(f[j].0));
    let i = choose|i: int| 0 <= i < b.len() && b[i] == f[j].0;
    let k = choose|k: int|
        0 <= k < f.len() && (#[trigger] f[k]).0 == g[i].0 && reads_by(f[k].1, g[i].1, back);
    assert(k == j);
    i
}

/// The first field with a name.
pub open spec fn field(fields: Seq<(Seq<char>, Tree)>, key: Seq<char>) -> Option<Tree>
    decreases fields.len(),
{
    if fields.len() == 0 {
        None
    } else if fields[0].0 == key {
        Some(fields[0].1)
    } else {
        field(fields.skip(1), key)
    }
}

/// Where the first field with a name is.
pub proof fn field_place(fields: Seq<(Seq<char>, Tree)>, key: Seq<char>) -> (j: int)
    requires
        field(fields, key) is Some,
    ensures
        0 <= j < fields.len(),
        fields[j].0 == key,
        field(fields, key) == Some(fields[j].1),
    decreases fields.len(),
{
    if fields[0].0 == key {
        0
    } else {
        let j = field_place(fields.skip(1), key);
        assert(fields.skip(1)[j] == fields[j + 1]);
        j + 1
    }
}

/// Every field of an object whose fields are named apart is found by its name.
pub proof fn a_field_is_found(fields: Seq<(Seq<char>, Tree)>, j: int)
    requires
        are_named_apart(fields),
        0 <= j < fields.len(),
    ensures
        field(fields, fields[j].0) == Some(fields[j].1),
    decreases j,
{
    if j > 0 {
        let rest = fields.skip(1);
        assert(fields[0].0 != fields[j].0);
        assert(are_named_apart(rest)) by {
            assert forall|a: int, b: int| 0 <= a < b < rest.len() implies (#[trigger] rest[a]).0 != (
            #[trigger] rest[b]).0 by {
                assert(rest[a] == fields[a + 1] && rest[b] == fields[b + 1]);
            }
        }
        assert(rest[j - 1] == fields[j]);
        a_field_is_found(rest, j - 1);
    }
}

/// What is found under the name of a field is what that field was written with.
pub proof fn a_field_is_read(
    f: Seq<(Seq<char>, Tree)>,
    r: Tree,
    j: int,
    back: spec_fn(Real) -> Real,
)
    requires
        are_named_apart(f),
        reads_by(Tree::Object(f), r, back),
        0 <= j < f.len(),
    ensures
        r.at(f[j].0) is Some,
        reads_by(f[j].1, r.at(f[j].0)->0, back),
{
    let g = r->Object_0;
    let i = every_field_is_read(f, g, j, back);
    a_field_is_found(g, i);
}

/// Nothing is found under a name that no field was written with.
pub proof fn no_other_field_is_read(
    f: Seq<(Seq<char>, Tree)>,
    r: Tree,
    key: Seq<char>,
    back: spec_fn(Real) -> Real,
)
    requires
        reads_by(Tree::Object(f), r, back),
        forall|j: int| 0 <= j < f.len() ==> (#[trigger] f[j]).0 != key,
    ensures
        r.at(key) is None,
{
    if r.at(key) is Some {
        let g = r->Object_0;
        let i = field_place(g, key);
        let k = choose|k: int|
            0 <= k < f.len() && (#[trigger] f[k]).0 == g[i].0 && reads_by(f[k].1, g[i].1, back);
        assert(f[k].0 != key);
    }
}

/// The number at each place of a list is what the one that was written there is
/// read as, where it is finite.
pub proof fn fractions_are_read(values: Seq<Real>, r: Tree, back: spec_fn(Real) -> Real)
    requires
        reads_by(Json::fractions(values), r, back),
    ensures
        r is Array,
        r->Array_0.len() == values.len(),
        forall|i: int|
            0 <= i < values.len() ==> (#[trigger] r->Array_0[i]).measure() == if values[i].finite() {
                Some(back(values[i]))
            } else {
                None
            },
{
    let a = Json::fractions(values)->Array_0;
    let b = r->Array_0;
    assert forall|i: int| 0 <= i < values.len() implies (#[trigger] b[i]).measure()
        == if values[i].finite() {
        Some(back(values[i]))
    } else {
        None
    } by {
        assert(a[i] == Json::fraction(values[i]));
        assert(reads_by(a[i], b[i], back));
    }
}

impl Tree {
    /// The field of an object with a name.
    pub open spec fn at(self, key: Seq<char>) -> Option<Tree> {
        match self {
            Tree::Object(fields) => field(fields, key),
            _ => None,
        }
    }

    pub open spec fn text(self) -> Option<Seq<char>> {
        match self {
            Tree::Text(s) => Some(s),
            _ => None,
        }
    }

    pub open spec fn unsigned(self) -> Option<u64> {
        match self {
            Tree::Number(n) => n.unsigned,
            _ => None,
        }
    }

    pub open spec fn signed(self) -> Option<i64> {
        match self {
            Tree::Number(n) => n.signed,
            _ => None,
        }
    }

    pub open spec fn measure(self) -> Option<Real> {
        match self {
            Tree::Number(n) => n.real,
            _ => None,
        }
    }

    pub open spec fn items(self) -> Option<Seq<Tree>> {
        match self {
            Tree::Array(items) => Some(items),
            _ => None,
        }
    }

    pub open spec fn is_object(self) -> bool {
        self is Object
    }

    /// The text in a field.
    pub open spec fn text_at(self, key: Seq<char>) -> Option<Seq<char>> {
        match self.at(key) {
            Some(v) => v.text(),
            None => None,
        }
    }

    /// The whole number in a field.
    pub open spec fn unsigned_at(self, key: Seq<char>) -> Option<u64> {
        match self.at(key) {
            Some(v) => v.unsigned(),
            None => None,
        }
    }

    /// The number in a field.
    pub open spec fn real_at(self, key: Seq<char>) -> Option<Real> {
        match self.at(key) {
            Some(v) => v.measure(),
            None => None,
        }
    }

    /// The list in a field.
    pub open spec fn items_at(self, key: Seq<char>) -> Option<Seq<Tree>> {
        match self.at(key) {
            Some(v) => v.items(),
            None => None,
        }
    }
}

/// Several documents, each as the values it holds.
pub open spec fn trees(items: Seq<Json>) -> Seq<Tree> {
    Seq::new(items.len(), |i: int| items[i].tree())
}

/// The fields of an object, each as the values it holds.
pub open spec fn tree_fields(fields: Seq<(String, Json)>) -> Seq<(Seq<char>, Tree)> {
    Seq::new(fields.len(), |i: int| (fields[i].0@, fields[i].1.tree()))
}

/// What a list holds is smaller than the list.
pub proof fn lemma_item_is_smaller(j: Json, i: int)
    requires
        j is Array,
        0 <= i < j->Array_0@.len(),
    ensures
        decreases_to!(j => j->Array_0@[i]),
{
    assert(decreases_to!(j => j->Array_0));
    assert(decreases_to!(j->Array_0 => j->Array_0@));
    assert(decreases_to!(j->Array_0@ => j->Array_0@[i]));
}

/// What an object holds is smaller than the object.
pub proof fn lemma_value_is_smaller(j: Json, i: int)
    requires
        j is Object,
        0 <= i < j->Object_0@.len(),
    ensures
        decreases_to!(j => j->Object_0@[i].1),
{
    assert(decreases_to!(j => j->Object_0));
    assert(decreases_to!(j->Object_0 => j->Object_0@));
    assert(decreases_to!(j->Object_0@ => j->Object_0@[i]));
    assert(decreases_to!(j->Object_0@[i] => j->Object_0@[i].1));
}

impl Json {
    /// The document, as the values it holds.
    pub open spec fn tree(self) -> Tree
        decreases self,
    {
        match self {
            Json::Null => Tree::Null,
            Json::Bool(b) => Tree::Bool(b),
            Json::Number(n) => Tree::Number(n),
            Json::Text(s) => Tree::Text(s@),
            Json::Array(items) => Tree::Array(
                Seq::new(
                    items@.len(),
                    |i: int|
                        if 0 <= i < items@.len() {
                            items@[i].tree()
                        } else {
                            Tree::Null
                        },
                ),
            ),
            Json::Object(fields) => Tree::Object(
                Seq::new(
                    fields@.len(),
                    |i: int|
                        if 0 <= i < fields@.len() {
                            (fields@[i].0@, fields@[i].1.tree())
                        } else {
                            (Seq::empty(), Tree::Null)
                        },
                ),
            ),
        }
    }

    /// Reads a document.
    pub fn read(bytes: &[u8]) -> (r: Result<Json, String>)
        ensures
            match r {
                Ok(j) => json_read(bytes@) == Ok::<Tree, Seq<char>>(j.tree()),
                Err(e) => json_read(bytes@) == Err::<Tree, Seq<char>>(e@),
            },
    {
        match read_value(bytes) {
            Ok(v) => Ok(lift(&v)),
            Err(e) => Err(e),
        }
    }

    /// The field of an object with a name.
    pub fn get(&self, key: &str) -> (r: Option<&Json>)
        ensures
            match r {
                Some(v) => self.tree().at(key@) == Some(v.tree()),
                None => self.tree().at(key@) is None,
            },
    {
        match self {
            Json::Object(fields) => {
                let ghost all = self.tree()->Object_0;
                assert(all.skip(0) =~= all);
                let mut i: usize = 0;
                while i < fields.len()
                    invariant
                        i <= fields.len(),
                        *self == Json::Object(*fields),
                        all == self.tree()->Object_0,
                        all.len() == fields@.len(),
                        field(all, key@) == field(all.skip(i as int), key@),
                    decreases fields.len() - i,
                {
                    assert(all.skip(i as int)[0] == (
                        fields@[i as int].0@,
                        fields@[i as int].1.tree(),
                    ));
                    if same(fields[i].0.as_str(), key) {
                        return Some(&fields[i].1);
                    }
                    assert(all.skip(i as int).skip(1) =~= all.skip(i + 1));
                    i = i + 1;
                }
                None
            },
            _ => None,
        }
    }

    pub fn as_text(&self) -> (r: Option<&String>)
        ensures
            match r {
                Some(s) => self.tree().text() == Some(s@),
                None => self.tree().text() is None,
            },
    {
        match self {
            Json::Text(s) => Some(s),
            _ => None,
        }
    }

    pub fn as_unsigned(&self) -> (r: Option<u64>)
        ensures
            r == self.tree().unsigned(),
    {
        match self {
            Json::Number(n) => n.unsigned,
            _ => None,
        }
    }

    pub fn as_signed(&self) -> (r: Option<i64>)
        ensures
            r == self.tree().signed(),
    {
        match self {
            Json::Number(n) => n.signed,
            _ => None,
        }
    }

    pub fn as_real(&self) -> (r: Option<Real>)
        ensures
            r == self.tree().measure(),
    {
        match self {
            Json::Number(n) => n.real,
            _ => None,
        }
    }

    pub fn as_array(&self) -> (r: Option<&Vec<Json>>)
        ensures
            match r {
                Some(v) => self.tree().items() == Some(trees(v@)) && *self == Json::Array(*v),
                None => self.tree().items() is None,
            },
    {
        match self {
            Json::Array(items) => {
                assert(self.tree()->Array_0 =~= trees(items@));
                Some(items)
            },
            _ => None,
        }
    }

    pub fn as_object(&self) -> (r: Option<&Vec<(String, Json)>>)
        ensures
            match r {
                Some(v) => self.tree() == Tree::Object(tree_fields(v@)) && *self == Json::Object(*v),
                None => !self.tree().is_object(),
            },
    {
        match self {
            Json::Object(fields) => {
                assert(self.tree()->Object_0 =~= tree_fields(fields@));
                Some(fields)
            },
            _ => None,
        }
    }

    /// The text in a field.
    pub fn text_at(&self, key: &str) -> (r: Option<&String>)
        ensures
            match r {
                Some(s) => self.tree().text_at(key@) == Some(s@),
                None => self.tree().text_at(key@) is None,
            },
    {
        match self.get(key) {
            Some(v) => v.as_text(),
            None => None,
        }
    }

    /// The whole number in a field.
    pub fn unsigned_at(&self, key: &str) -> (r: Option<u64>)
        ensures
            r == self.tree().unsigned_at(key@),
    {
        match self.get(key) {
            Some(v) => v.as_unsigned(),
            None => None,
        }
    }

    /// The number in a field.
    pub fn real_at(&self, key: &str) -> (r: Option<Real>)
        ensures
            r == self.tree().real_at(key@),
    {
        match self.get(key) {
            Some(v) => v.as_real(),
            None => None,
        }
    }

    /// The list in a field.
    pub fn array_at(&self, key: &str) -> (r: Option<&Vec<Json>>)
        ensures
            match r {
                Some(v) => self.tree().items_at(key@) == Some(trees(v@)),
                None => self.tree().items_at(key@) is None,
            },
    {
        match self.get(key) {
            Some(v) => v.as_array(),
            None => None,
        }
    }

    /// A whole number to write.
    pub open spec fn whole(n: u64) -> Tree {
        Tree::Number(Number { unsigned: Some(n), signed: None, real: None })
    }

    /// A number to write.
    pub open spec fn fraction(r: Real) -> Tree {
        Tree::Number(Number { unsigned: None, signed: None, real: Some(r) })
    }

    /// A whole number to write.
    pub fn count(n: u64) -> (j: Json)
        ensures
            j.tree() == Json::whole(n),
    {
        Json::Number(Number { unsigned: Some(n), signed: None, real: None })
    }

    /// A number to write.
    pub fn of_real(r: Real) -> (j: Json)
        ensures
            j.tree() == Json::fraction(r),
    {
        Json::Number(Number { unsigned: None, signed: None, real: Some(r) })
    }

    /// A string to write.
    pub fn of_text(s: &str) -> (j: Json)
        ensures
            j.tree() == Tree::Text(s@),
    {
        Json::Text(s.to_owned())
    }

    /// A list of numbers to write.
    pub open spec fn fractions(values: Seq<Real>) -> Tree {
        Tree::Array(values.map_values(|r: Real| Json::fraction(r)))
    }

    /// A list of numbers to write.
    pub fn of_reals(values: &[Real]) -> (j: Json)
        ensures
            j.tree() == Json::fractions(values@),
    {
        let mut items: Vec<Json> = Vec::new();
        let mut i: usize = 0;
        while i < values.len()
            invariant
                i <= values.len(),
                items@.len() == i,
                forall|k: int|
                    0 <= k < i ==> (#[trigger] items@[k]).tree() == Json::fraction(values@[k]),
            decreases values.len() - i,
        {
            items.push(Json::of_real(values[i]));
            i = i + 1;
        }
        let j = Json::Array(items);
        assert(j.tree()->Array_0 =~= values@.map_values(|r: Real| Json::fraction(r)));
        j
    }

    /// A list of whole numbers to write.
    pub open spec fn wholes(values: Seq<u64>) -> Tree {
        Tree::Array(values.map_values(|n: u64| Json::whole(n)))
    }

    /// A list of whole numbers to write.
    pub fn of_counts(values: &Vec<u64>) -> (j: Json)
        ensures
            j.tree() == Json::wholes(values@),
    {
        let mut items: Vec<Json> = Vec::new();
        let mut i: usize = 0;
        while i < values.len()
            invariant
                i <= values.len(),
                items@.len() == i,
                forall|k: int|
                    0 <= k < i ==> (#[trigger] items@[k]).tree() == Json::whole(values@[k]),
            decreases values.len() - i,
        {
            items.push(Json::count(values[i]));
            i = i + 1;
        }
        let j = Json::Array(items);
        assert(j.tree()->Array_0 =~= values@.map_values(|n: u64| Json::whole(n)));
        j
    }

    /// A copy that holds the same.
    pub fn duplicate(&self) -> (j: Json)
        ensures
            j.tree() == self.tree(),
        decreases self,
    {
        match self {
            Json::Null => Json::Null,
            Json::Bool(b) => Json::Bool(*b),
            Json::Number(n) => Json::Number(*n),
            Json::Text(s) => Json::Text(s.clone()),
            Json::Array(items) => {
                let mut out: Vec<Json> = Vec::new();
                let mut i: usize = 0;
                while i < items.len()
                    invariant
                        i <= items.len(),
                        *self == Json::Array(*items),
                        out@.len() == i,
                        forall|k: int|
                            0 <= k < i ==> (#[trigger] out@[k]).tree() == items@[k].tree(),
                    decreases items.len() - i,
                {
                    proof {
                        lemma_item_is_smaller(*self, i as int);
                    }
                    out.push(items[i].duplicate());
                    i = i + 1;
                }
                let j = Json::Array(out);
                assert(j.tree()->Array_0 =~= self.tree()->Array_0);
                j
            },
            Json::Object(fields) => {
                let mut out: Vec<(String, Json)> = Vec::new();
                let mut i: usize = 0;
                while i < fields.len()
                    invariant
                        i <= fields.len(),
                        *self == Json::Object(*fields),
                        out@.len() == i,
                        forall|k: int|
                            0 <= k < i ==> (#[trigger] out@[k]).0@ == fields@[k].0@
                                && out@[k].1.tree() == fields@[k].1.tree(),
                    decreases fields.len() - i,
                {
                    proof {
                        lemma_value_is_smaller(*self, i as int);
                    }
                    let copy = fields[i].1.duplicate();
                    out.push((fields[i].0.clone(), copy));
                    i = i + 1;
                }
                let j = Json::Object(out);
                assert(j.tree()->Object_0 =~= self.tree()->Object_0);
                j
            },
        }
    }
}

/// An object being built, field by field.
pub struct Fields {
    pub list: Vec<(String, Json)>,
}

impl View for Fields {
    type V = Seq<(Seq<char>, Tree)>;

    open spec fn view(&self) -> Seq<(Seq<char>, Tree)> {
        tree_fields(self.list@)
    }
}

impl Fields {
    pub fn new() -> (f: Self)
        ensures
            f@ == Seq::<(Seq<char>, Tree)>::empty(),
    {
        let f = Fields { list: Vec::new() };
        assert(f@ =~= Seq::<(Seq<char>, Tree)>::empty());
        f
    }

    /// Adds a field after those already there.
    pub fn put(&mut self, key: &str, value: Json)
        ensures
            final(self)@ == old(self)@.push((key@, value.tree())),
    {
        self.list.push((key.to_owned(), value));
        assert(self@ =~= old(self)@.push((key@, value.tree())));
    }

    /// The object with these fields.
    pub fn object(self) -> (j: Json)
        ensures
            j.tree() == Tree::Object(self@),
    {
        let j = Json::Object(self.list);
        assert(j.tree()->Object_0 =~= self@);
        j
    }
}

} // verus!
