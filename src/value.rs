use vstd::prelude::*;

verus! {

/// An uploaded file: its content type, its original file name and its bytes.
pub struct File {
    pub content_type: String,
    pub name: String,
    pub bytes: Vec<u8>,
}

/// One decoded value of a form field.
pub enum Value {
    Null,
    Integer(i64),
    Boolean(bool),
    Text(String),
    File(File),
}

/// What the tree holds under one key: a single value, or the values of an
/// array field in arrival order.
pub enum Slot {
    Single(Value),
    List(Vec<Value>),
}

/// The ordered mapping from field name to slot, in first-seen order.
pub struct ValueTree {
    pub entries: Vec<(String, Slot)>,
}

pub enum ValueModel {
    Null,
    Integer(int),
    Boolean(bool),
    Text(Seq<char>),
    File { content_type: Seq<char>, name: Seq<char>, bytes: Seq<u8> },
}

pub enum SlotModel {
    Single(ValueModel),
    List(Seq<ValueModel>),
}

pub type TreeModel = Seq<(Seq<char>, SlotModel)>;

impl View for Value {
    type V = ValueModel;

    open spec fn view(&self) -> ValueModel {
        match self {
            Value::Null => ValueModel::Null,
            Value::Integer(n) => ValueModel::Integer(*n as int),
            Value::Boolean(b) => ValueModel::Boolean(*b),
            Value::Text(s) => ValueModel::Text(s@),
            Value::File(f) => ValueModel::File {
                content_type: f.content_type@,
                name: f.name@,
                bytes: f.bytes@,
            },
        }
    }
}

pub open spec fn values_view(v: Seq<Value>) -> Seq<ValueModel> {
    v.map_values(|x: Value| x@)
}

impl View for Slot {
    type V = SlotModel;

    open spec fn view(&self) -> SlotModel {
        match self {
            Slot::Single(v) => SlotModel::Single(v@),
            Slot::List(vs) => SlotModel::List(values_view(vs@)),
        }
    }
}

pub open spec fn entries_view(e: Seq<(String, Slot)>) -> TreeModel {
    e.map_values(|p: (String, Slot)| (p.0@, p.1@))
}

impl View for ValueTree {
    type V = TreeModel;

    open spec fn view(&self) -> TreeModel {
        entries_view(self.entries@)
    }
}

/// The wire name carries the array marker `[]` at its end.
pub open spec fn is_array_name(w: Seq<char>) -> bool {
    w.len() >= 2 && w[w.len() - 2] == '[' && w[w.len() - 1] == ']'
}

/// The wire name with one trailing `[]` removed, if it has one.
pub open spec fn canonical_of(w: Seq<char>) -> Seq<char> {
    if is_array_name(w) {
        w.subrange(0, w.len() - 2)
    } else {
        w
    }
}

pub open spec fn has_key<V>(t: Seq<(Seq<char>, V)>, k: Seq<char>) -> bool {
    exists|i: int| 0 <= i < t.len() && #[trigger] t[i].0 == k
}

pub open spec fn is_first_index<V>(t: Seq<(Seq<char>, V)>, k: Seq<char>, i: int) -> bool {
    &&& 0 <= i < t.len()
    &&& t[i].0 == k
    &&& forall|j: int| 0 <= j < i ==> #[trigger] t[j].0 != k
}

/// Where key `k` first stands (meaningful when `has_key(t, k)`).
pub open spec fn index_of<V>(t: Seq<(Seq<char>, V)>, k: Seq<char>) -> int {
    choose|i: int| is_first_index(t, k, i)
}

/// Sets the slot under `k`, in place if `k` is present, else at the end.
pub open spec fn set_slot(t: TreeModel, k: Seq<char>, s: SlotModel) -> TreeModel {
    if has_key(t, k) {
        t.update(index_of(t, k), (k, s))
    } else {
        t.push((k, s))
    }
}

/// Folds one decoded value into the tree. An array field appends to its list
/// (creating a one-element list at first sight, leaving a non-list entry as
/// it is); any other field overwrites, so the last occurrence wins.
pub open spec fn tree_insert(t: TreeModel, wire: Seq<char>, v: ValueModel) -> TreeModel {
    if is_array_name(wire) {
        let c = canonical_of(wire);
        if has_key(t, c) {
            match t[index_of(t, c)].1 {
                SlotModel::List(a) => t.update(index_of(t, c), (c, SlotModel::List(a.push(v)))),
                SlotModel::Single(_) => t,
            }
        } else {
            t.push((c, SlotModel::List(seq![v])))
        }
    } else {
        set_slot(t, wire, SlotModel::Single(v))
    }
}

pub proof fn lemma_first_index_unique<V>(t: Seq<(Seq<char>, V)>, k: Seq<char>, i: int)
    requires
        is_first_index(t, k, i),
    ensures
        has_key(t, k),
        index_of(t, k) == i,
{
    assert(t[i].0 == k);
    let j = index_of(t, k);
    assert(is_first_index(t, k, j));
    if j < i {
        assert(t[j].0 != k);
    }
    if i < j {
        assert(t[i].0 != k);
    }
}

proof fn lemma_first_below<V>(t: Seq<(Seq<char>, V)>, k: Seq<char>, i: int)
    requires
        0 <= i < t.len(),
        t[i].0 == k,
    ensures
        exists|j: int| is_first_index(t, k, j),
    decreases i,
{
    if exists|j: int| 0 <= j < i && #[trigger] t[j].0 == k {
        let j = choose|j: int| 0 <= j < i && #[trigger] t[j].0 == k;
        lemma_first_below(t, k, j);
    } else {
        assert(is_first_index(t, k, i));
    }
}

/// A present key has a first position, and `index_of` is that position.
pub proof fn lemma_index_of<V>(t: Seq<(Seq<char>, V)>, k: Seq<char>)
    requires
        has_key(t, k),
    ensures
        is_first_index(t, k, index_of(t, k)),
{
    let i = choose|i: int| 0 <= i < t.len() && #[trigger] t[i].0 == k;
    lemma_first_below(t, k, i);
}

/// Entries viewed with their keys as character sequences.
pub open spec fn key_view<V>(e: Seq<(String, V)>) -> Seq<(Seq<char>, V)> {
    e.map_values(|p: (String, V)| (p.0@, p.1))
}

/// Two entry sequences with the same keys at every position agree on which
/// keys they hold and where each first stands.
pub proof fn lemma_same_keys<A, B>(a: Seq<(Seq<char>, A)>, b: Seq<(Seq<char>, B)>, k: Seq<char>)
    requires
        a.len() == b.len(),
        forall|i: int| 0 <= i < a.len() ==> #[trigger] a[i].0 == b[i].0,
    ensures
        has_key(a, k) == has_key(b, k),
        has_key(a, k) ==> index_of(a, k) == index_of(b, k) && is_first_index(b, k, index_of(b, k)),
{
    if has_key(a, k) {
        let i = choose|i: int| 0 <= i < a.len() && #[trigger] a[i].0 == k;
        assert(b[i].0 == k);
        lemma_index_of(a, k);
        let f = index_of(a, k);
        assert forall|j: int| 0 <= j < f implies #[trigger] b[j].0 != k by {
            assert(a[j].0 != k);
        }
        lemma_first_index_unique(b, k, f);
    } else if has_key(b, k) {
        let i = choose|i: int| 0 <= i < b.len() && #[trigger] b[i].0 == k;
        assert(a[i].0 == k);
    }
}

/// The position of the first entry keyed `k`.
pub fn position_of<V>(e: &Vec<(String, V)>, k: &String) -> (r: Option<usize>)
    ensures
        r is Some <==> has_key(key_view(e@), k@),
        r matches Some(i) ==> i as int == index_of(key_view(e@), k@) && is_first_index(
            key_view(e@),
            k@,
            i as int,
        ),
{
    let ghost v = key_view(e@);
    let mut i: usize = 0;
    while i < e.len()
        invariant
            i <= e@.len(),
            v == key_view(e@),
            forall|j: int| 0 <= j < i ==> #[trigger] v[j].0 != k@,
        decreases e@.len() - i,
    {
        if e[i].0 == *k {
            proof {
                lemma_first_index_unique(v, k@, i as int);
            }
            return Some(i);
        }
        i = i + 1;
    }
    assert(!has_key(v, k@)) by {
        if has_key(v, k@) {
            let j = choose|j: int| 0 <= j < v.len() && #[trigger] v[j].0 == k@;
            assert(v[j].0 != k@);
        }
    }
    None
}

impl ValueTree {
    pub fn new() -> (r: ValueTree)
        ensures
            r@ == Seq::<(Seq<char>, SlotModel)>::empty(),
    {
        let r = ValueTree { entries: Vec::new() };
        assert(r@ =~= Seq::<(Seq<char>, SlotModel)>::empty());
        r
    }

    /// The position of key `k`, if the tree holds it.
    pub fn find(&self, k: &String) -> (r: Option<usize>)
        ensures
            r is Some <==> has_key(self@, k@),
            r matches Some(i) ==> i as int == index_of(self@, k@) && is_first_index(self@, k@, i as int),
    {
        let r = position_of(&self.entries, k);
        proof {
            lemma_same_keys(key_view(self.entries@), self@, k@);
        }
        r
    }

    /// Sets the slot under `k`, in place if `k` is present, else at the end.
    pub fn set(&mut self, k: String, s: Slot)
        ensures
            final(self)@ == set_slot(old(self)@, k@, s@),
    {
        match self.find(&k) {
            Some(i) => {
                let ghost kv = k@;
                self.entries.set(i, (k, s));
                assert(self@ =~= old(self)@.update(i as int, (kv, s@)));
            },
            None => {
                let ghost kv = k@;
                self.entries.push((k, s));
                assert(self@ =~= old(self)@.push((kv, s@)));
            },
        }
    }

    /// Folds `element`, decoded from a part named `field_name` on the wire,
    /// into the tree; `field_name_formatted` is that name without its array
    /// marker.
    pub fn insert(&mut self, field_name: &String, field_name_formatted: &String, element: Value)
        requires
            field_name_formatted@ == canonical_of(field_name@),
        ensures
            final(self)@ == tree_insert(old(self)@, field_name@, element@),
    {
        if ends_with_brackets(field_name) {
            match self.find(field_name_formatted) {
                Some(i) => {
                    let ghost ev = element@;
                    let (k, s) = self.entries.remove(i);
                    let s2 = match s {
                        Slot::List(mut a) => {
                            a.push(element);
                            assert(values_view(a@) =~= values_view(old(self).entries@[i as int].1->List_0@).push(ev));
                            Slot::List(a)
                        },
                        Slot::Single(v) => Slot::Single(v),
                    };
                    self.entries.insert(i, (k, s2));
                    assert(self@ =~= old(self)@.update(i as int, (k@, s2@)));
                },
                None => {
                    let ghost ev = element@;
                    let mut a: Vec<Value> = Vec::new();
                    a.push(element);
                    assert(values_view(a@) =~= seq![ev]);
                    let k = field_name_formatted.clone();
                    self.entries.push((k, Slot::List(a)));
                    assert(self@ =~= old(self)@.push((field_name_formatted@, SlotModel::List(seq![ev]))));
                },
            }
        } else {
            self.set(field_name.clone(), Slot::Single(element));
        }
    }
}

/// Whether the wire name ends with the array marker `[]`.
pub fn ends_with_brackets(w: &String) -> (r: bool)
    ensures
        r == is_array_name(w@),
{
    match strip_marker(w) {
        Some(_) => true,
        None => false,
    }
}

/// The canonical field name: the wire name with one trailing `[]` removed.
pub fn canonical_name(w: &String) -> (r: String)
    ensures
        r@ == canonical_of(w@),
{
    match strip_marker(w) {
        Some(s) => s,
        None => w.clone(),
    }
}

fn strip_marker(w: &String) -> (r: Option<String>)
    ensures
        r is Some <==> is_array_name(w@),
        r matches Some(p) ==> p@ == w@.subrange(0, w@.len() - 2),
{
    let marker = "[]";
    proof {
        reveal_strlit("[]");
    }
    let r = strip_suffix(w.as_str(), marker);
    proof {
        let n = w@.len();
        if is_array_name(w@) {
            assert(w@.subrange(n - 2, n as int) =~= marker@);
        }
        if n >= 2 && w@.subrange(n - 2, n as int) == marker@ {
            assert(w@[n - 2] == w@.subrange(n - 2, n as int)[0]);
            assert(w@[n - 1] == w@.subrange(n - 2, n as int)[1]);
        }
    }
    r
}

/// Relies on str::strip_suffix: the text before `suffix` exactly when the
/// text ends with it.
#[verifier::external_body]
fn strip_suffix(s: &str, suffix: &str) -> (r: Option<String>)
    ensures
        r is Some <==> (s@.len() >= suffix@.len() && s@.subrange(s@.len() - suffix@.len(), s@.len() as int)
            == suffix@),
        r matches Some(p) ==> p@ == s@.subrange(0, s@.len() - suffix@.len()),
{
    s.strip_suffix(suffix).map(|p| p.to_string())
}

} // verus!
