use vstd::prelude::*;
use vstd::utf8::encode_utf8;
use crate::value::{has_key, index_of, key_view, lemma_index_of, position_of};

verus! {

/// The byte count that a human-readable size literal ("10MB", "512 KiB",
/// "20000") denotes in binary units, or `None` if it does not parse.
pub uninterp spec fn size_of_literal(s: Seq<char>) -> Option<u64>;

/// The most ASCII digits a size literal may hold. The parser rounds its
/// mantissa up without an overflow check once the mantissa is full, which
/// takes more digits than this.
pub const MAX_LITERAL_DIGITS: usize = 20;

/// The number of ASCII decimal digits among the bytes.
pub open spec fn digit_count(b: Seq<u8>) -> nat
    decreases b.len(),
{
    if b.len() == 0 {
        0
    } else {
        digit_count(b.drop_last()) + if 48 <= b.last() <= 57 {
            1nat
        } else {
            0nat
        }
    }
}

/// What a declared literal gives: its byte count, or `None` if it does not
/// parse or holds more than `MAX_LITERAL_DIGITS` digits.
pub open spec fn declared_size(t: Seq<char>) -> Option<u64> {
    if digit_count(encode_utf8(t)) <= MAX_LITERAL_DIGITS {
        size_of_literal(t)
    } else {
        None
    }
}

/// Relies on parse_size::Config::parse_size, configured with binary units
/// (1 KB = 1024 bytes): the byte count of the literal, or an error when it
/// does not parse; the outcome depends on the text alone. Literals with more
/// than `MAX_LITERAL_DIGITS` digits are left out: on some of them the parser
/// overflows a `u64` addition.
#[verifier::external_body]
fn parse_size_literal(s: &str) -> (r: Option<u64>)
    requires
        digit_count(encode_utf8(s@)) <= MAX_LITERAL_DIGITS,
    ensures
        r == size_of_literal(s@),
{
    parse_size::Config::new().with_binary().parse_size(s).ok()
}

/// A record type whose multipart form can be decoded.
pub trait MultipartForm {
    /// The field names as they appear on the wire (after any renaming), in
    /// declaration order.
    fn field_names() -> Vec<String>;

    /// The size literal declared for each size-limited field, by field name.
    fn size_declarations() -> Vec<(String, String)>;
}

/// Whether the literal holds at most `MAX_LITERAL_DIGITS` ASCII digits.
fn digits_within_bound(s: &str) -> (r: bool)
    ensures
        r == (digit_count(encode_utf8(s@)) <= MAX_LITERAL_DIGITS),
{
    let b = s.as_bytes();
    let mut count: usize = 0;
    let mut i: usize = 0;
    while i < b.len()
        invariant
            i <= b@.len(),
            b@ == encode_utf8(s@),
            count as nat == digit_count(b@.subrange(0, i as int)),
            count <= i,
        decreases b@.len() - i,
    {
        assert(b@.subrange(0, i + 1).drop_last() =~= b@.subrange(0, i as int));
        if b[i] >= 48 && b[i] <= 57 {
            count = count + 1;
        }
        i = i + 1;
    }
    assert(b@.subrange(0, i as int) =~= b@);
    count <= MAX_LITERAL_DIGITS
}

/// Schema construction failed.
pub enum SchemaError {
    /// The size literal declared for the named field does not parse, holds
    /// more than `MAX_LITERAL_DIGITS` digits, gives zero bytes, or gives a
    /// byte count that does not fit a `usize`.
    InvalidSizeLiteral(String),
}

/// Per-field maximum sizes of a record type, keyed by field name and kept in
/// the order of the type's field-name list. `None` means unbounded.
#[derive(Clone)]
pub struct Schema {
    pub entries: Vec<(String, Option<usize>)>,
}

pub type SchemaModel = Seq<(Seq<char>, Option<usize>)>;

/// Declarations with their literals already parsed.
pub type ParsedDecls = Seq<(Seq<char>, Option<u64>)>;

impl View for Schema {
    type V = SchemaModel;

    open spec fn view(&self) -> SchemaModel {
        key_view(self.entries@)
    }
}

pub open spec fn names_view(n: Seq<String>) -> Seq<Seq<char>> {
    n.map_values(|s: String| s@)
}

pub open spec fn parsed_view(d: Seq<(String, Option<u64>)>) -> ParsedDecls {
    key_view(d)
}

/// The declarations as the size parser reads them.
pub open spec fn parse_declarations(d: Seq<(String, String)>) -> ParsedDecls {
    d.map_values(|p: (String, String)| (p.0@, declared_size(p.1@)))
}

/// A declared limit must be a positive byte count that fits a `usize`.
pub open spec fn valid_limit(v: Option<u64>) -> bool {
    v matches Some(n) && 0 < n && n <= usize::MAX
}

/// Every declared literal parsed to a positive byte count that fits a `usize`.
pub open spec fn all_valid(d: ParsedDecls) -> bool {
    forall|i: int| 0 <= i < d.len() ==> valid_limit(#[trigger] d[i].1)
}

/// The limit that the first declaration for `name` gives, if there is one.
pub open spec fn declared_limit(d: ParsedDecls, name: Seq<char>) -> Option<usize> {
    if has_key(d, name) {
        match d[index_of(d, name)].1 {
            Some(n) => Some(n as usize),
            None => None,
        }
    } else {
        None
    }
}

/// The schema for a field-name list: each name with its declared limit.
pub open spec fn schema_of(names: Seq<Seq<char>>, d: ParsedDecls) -> SchemaModel {
    Seq::new(names.len(), |i: int| (names[i], declared_limit(d, names[i])))
}

/// The limit of the first entry named `name`; `None` for an unknown name.
pub open spec fn lookup_spec(s: SchemaModel, name: Seq<char>) -> Option<usize> {
    if has_key(s, name) {
        s[index_of(s, name)].1
    } else {
        None
    }
}

impl Schema {
    /// Builds the schema from declarations whose literals are already parsed
    /// (`None` where a literal did not parse). Fails on the first declaration
    /// that is invalid.
    pub fn from_parsed(field_names: &Vec<String>, parsed: &Vec<(String, Option<u64>)>) -> (r: Result<Schema, SchemaError>)
        ensures
            r is Ok <==> all_valid(parsed_view(parsed@)),
            r matches Ok(s) ==> s@ == schema_of(names_view(field_names@), parsed_view(parsed@)),
            r matches Err(SchemaError::InvalidSizeLiteral(f)) ==> exists|i: int|
                0 <= i < parsed@.len() && f@ == parsed@[i].0@ && !valid_limit(#[trigger] parsed@[i].1),
    {
        let ghost d = parsed_view(parsed@);
        let mut k: usize = 0;
        while k < parsed.len()
            invariant
                k <= parsed@.len(),
                d == parsed_view(parsed@),
                forall|j: int| 0 <= j < k ==> valid_limit(#[trigger] d[j].1),
            decreases parsed@.len() - k,
        {
            let ok = match parsed[k].1 {
                Some(n) => 0 < n && n <= usize::MAX as u64,
                None => false,
            };
            if !ok {
                assert(!valid_limit(parsed@[k as int].1));
                assert(!all_valid(d)) by {
                    assert(d[k as int].1 == parsed@[k as int].1);
                }
                return Err(SchemaError::InvalidSizeLiteral(parsed[k].0.clone()));
            }
            k = k + 1;
        }
        assert(all_valid(d));
        let ghost names = names_view(field_names@);
        let mut entries: Vec<(String, Option<usize>)> = Vec::new();
        let mut i: usize = 0;
        while i < field_names.len()
            invariant
                i <= field_names@.len(),
                d == parsed_view(parsed@),
                names == names_view(field_names@),
                all_valid(d),
                entries@.len() == i,
                forall|j: int| 0 <= j < i ==> (#[trigger] entries@[j]).0@ == names[j]
                    && entries@[j].1 == declared_limit(d, names[j]),
            decreases field_names@.len() - i,
        {
            let name = &field_names[i];
            let limit: Option<usize> = match position_of(parsed, name) {
                Some(j) => {
                    match parsed[j].1 {
                        Some(n) => {
                            assert(valid_limit(d[j as int].1));
                            Some(n as usize)
                        },
                        None => None,
                    }
                },
                None => None,
            };
            entries.push((name.clone(), limit));
            i = i + 1;
        }
        let s = Schema { entries };
        assert(s@ =~= schema_of(names, d));
        Ok(s)
    }

    /// Builds the schema of a record type from its field-name list and the
    /// size literal declared for each size-limited field. Fields without a
    /// declaration are unbounded. A literal with more than
    /// `MAX_LITERAL_DIGITS` digits is rejected without being parsed.
    pub fn build(field_names: &Vec<String>, declared: &Vec<(String, String)>) -> (r: Result<Schema, SchemaError>)
        ensures
            r is Ok <==> all_valid(parse_declarations(declared@)),
            r matches Ok(s) ==> s@ == schema_of(names_view(field_names@), parse_declarations(declared@)),
            r matches Err(SchemaError::InvalidSizeLiteral(f)) ==> exists|i: int|
                0 <= i < declared@.len() && f@ == declared@[i].0@
                && !valid_limit(declared_size(#[trigger] declared@[i].1@)),
    {
        let mut parsed: Vec<(String, Option<u64>)> = Vec::new();
        let mut i: usize = 0;
        while i < declared.len()
            invariant
                i <= declared@.len(),
                parsed@.len() == i,
                forall|j: int| 0 <= j < i ==> (#[trigger] parsed@[j]).0@ == declared@[j].0@
                    && parsed@[j].1 == declared_size(declared@[j].1@),
            decreases declared@.len() - i,
        {
            let literal = declared[i].1.as_str();
            let n = if digits_within_bound(literal) {
                parse_size_literal(literal)
            } else {
                None
            };
            parsed.push((declared[i].0.clone(), n));
            i = i + 1;
        }
        assert(parsed_view(parsed@) =~= parse_declarations(declared@));
        let r = Schema::from_parsed(field_names, &parsed);
        proof {
            match &r {
                Err(SchemaError::InvalidSizeLiteral(f)) => {
                    let k = choose|k: int| 0 <= k < parsed@.len() && f@ == parsed@[k].0@ && !valid_limit(#[trigger] parsed@[k].1);
                    assert(f@ == declared@[k].0@ && !valid_limit(declared_size(declared@[k].1@)));
                },
                Ok(_) => {},
            }
        }
        r
    }

    /// The declared maximum size of the field named `name`; `None` when the
    /// field is unbounded or not in the schema.
    pub fn lookup(&self, name: &String) -> (r: Option<usize>)
        ensures
            r == lookup_spec(self@, name@),
    {
        match position_of(&self.entries, name) {
            Some(i) => self.entries[i].1,
            None => None,
        }
    }

    /// Whether `name` is one of the schema's field names.
    pub fn contains(&self, name: &String) -> (r: bool)
        ensures
            r == has_key(self@, name@),
    {
        match position_of(&self.entries, name) {
            Some(_) => true,
            None => false,
        }
    }
}

/// Looking a name up in a built schema gives exactly the limit declared for
/// that name (by its first declaration), and nothing for an undeclared or
/// unknown name.
pub proof fn lemma_lookup_declared(names: Seq<Seq<char>>, d: ParsedDecls, name: Seq<char>)
    ensures
        lookup_spec(schema_of(names, d), name) == (if names.contains(name) {
            declared_limit(d, name)
        } else {
            None
        }),
{
    let s = schema_of(names, d);
    if names.contains(name) {
        let i = choose|i: int| 0 <= i < names.len() && names[i] == name;
        assert(s[i].0 == name);
        assert(has_key(s, name));
        lemma_index_of(s, name);
    } else {
        if has_key(s, name) {
            let j = choose|j: int| 0 <= j < s.len() && #[trigger] s[j].0 == name;
            assert(names[j] == name);
        }
    }
}

/// Building a schema twice from the same field names and declarations gives
/// the same limit at every position.
pub proof fn lemma_build_idempotent(names: Seq<String>, declared: Seq<(String, String)>, a: SchemaModel, b: SchemaModel)
    requires
        a == schema_of(names_view(names), parse_declarations(declared)),
        b == schema_of(names_view(names), parse_declarations(declared)),
    ensures
        a.len() == b.len() == names.len(),
        forall|i: int| 0 <= i < a.len() ==> #[trigger] a[i] == b[i] && a[i].0 == names[i]@,
{
}

} // verus!
