//! Mixture documents: decoding them into a model request, and building the
//! output document from what the model computed.
//!
//! Real numbers that only pass through (temperature, fractions, coefficients)
//! are held as the bit patterns of their IEEE 754 binary64 values.
use vstd::prelude::*;
use crate::groups::{group_id_known, is_known_group};
use crate::token::{
    count_field, decode_group, encode_group, has_sole_colon, id_field, id_value, is_group_token,
    is_id_field, token_text, GroupToken, TokenError,
};

verus! {

/// One substance of an input document, its groups still as tokens.
#[derive(Debug, PartialEq, Eq)]
pub struct SubstanceEntry {
    pub name: String,
    pub fraction: u64,
    pub groups: Vec<String>,
}

/// An input document: a temperature and the substances of the mixture.
#[derive(Debug, PartialEq, Eq)]
pub struct MixtureDocument {
    pub temperature: u64,
    pub substances: Vec<SubstanceEntry>,
}

/// One substance of a request, its groups decoded.
#[derive(Debug, PartialEq, Eq)]
pub struct SubstanceRequest {
    pub name: String,
    pub fraction: u64,
    pub groups: Vec<GroupToken>,
}

/// What the model is asked to compute.
#[derive(Debug, PartialEq, Eq)]
pub struct MixtureRequest {
    pub temperature: u64,
    pub substances: Vec<SubstanceRequest>,
}

/// Why a document could not be decoded.
#[derive(Debug, PartialEq, Eq)]
pub enum DecodeError {
    /// A group token of the named substance is malformed.
    GroupToken { substance: String, cause: TokenError },
    /// A group token of the named substance is well-formed, but the model has no such group.
    GroupSemantic { substance: String, id: u8 },
}

/// The error that a malformed token gives.
pub open spec fn token_error(t: Seq<char>) -> TokenError {
    if !has_sole_colon(t) {
        TokenError::Separator
    } else if !is_id_field(id_field(t)) {
        TokenError::Id
    } else {
        TokenError::Count
    }
}

/// A token that decodes to a group the model knows.
pub open spec fn group_ok(t: Seq<char>) -> bool {
    is_group_token(t) && is_known_group(id_value(id_field(t)))
}

pub open spec fn substance_ok(s: SubstanceEntry) -> bool {
    forall|j: int| 0 <= j < s.groups@.len() ==> group_ok(#[trigger] s.groups@[j]@)
}

pub open spec fn document_ok(d: MixtureDocument) -> bool {
    forall|i: int| 0 <= i < d.substances@.len() ==> substance_ok(#[trigger] d.substances@[i])
}

/// Taking substances in order, and the groups of each in order, the first
/// token that fails is group `j` of substance `i`.
pub open spec fn fails_first_at(d: MixtureDocument, i: int, j: int) -> bool {
    &&& 0 <= i < d.substances@.len()
    &&& forall|k: int| 0 <= k < i ==> substance_ok(#[trigger] d.substances@[k])
    &&& 0 <= j < d.substances@[i].groups@.len()
    &&& forall|l: int| 0 <= l < j ==> group_ok(#[trigger] d.substances@[i].groups@[l]@)
    &&& !group_ok(d.substances@[i].groups@[j]@)
}

/// `e` is the error that token `t` of the substance named `name` gives.
pub open spec fn is_error_for(e: DecodeError, name: Seq<char>, t: Seq<char>) -> bool {
    match e {
        DecodeError::GroupToken { substance, cause } => {
            substance@ == name && !is_group_token(t) && cause == token_error(t)
        },
        DecodeError::GroupSemantic { substance, id } => {
            substance@ == name && is_group_token(t) && id as nat == id_value(id_field(t))
        },
    }
}

/// Group `g` is what token `t` decodes to.
pub open spec fn decodes_to(t: Seq<char>, g: GroupToken) -> bool {
    g.id as nat == id_value(id_field(t)) && g.count@ == count_field(t)
}

/// `r` is substance `s` with its tokens decoded.
pub open spec fn request_of(s: SubstanceEntry, r: SubstanceRequest) -> bool {
    &&& r.name@ == s.name@
    &&& r.fraction == s.fraction
    &&& r.groups@.len() == s.groups@.len()
    &&& forall|j: int| 0 <= j < s.groups@.len() ==> decodes_to(s.groups@[j]@, #[trigger] r.groups@[j])
}

/// Group `j` is the first of `s` that fails.
pub open spec fn group_fails_first_at(s: SubstanceEntry, j: int) -> bool {
    &&& 0 <= j < s.groups@.len()
    &&& forall|l: int| 0 <= l < j ==> group_ok(#[trigger] s.groups@[l]@)
    &&& !group_ok(s.groups@[j]@)
}

/// Decodes the groups of one substance, stopping at the first bad token.
pub fn decode_substance(s: &SubstanceEntry) -> (r: Result<SubstanceRequest, DecodeError>)
    ensures
        r.is_ok() == substance_ok(*s),
        r.is_ok() ==> request_of(*s, r.unwrap()),
        r.is_err() ==> exists|j: int|
            group_fails_first_at(*s, j) && is_error_for(
                #[trigger] r.unwrap_err(),
                s.name@,
                s.groups@[j]@,
            ),
{
    let mut groups: Vec<GroupToken> = Vec::new();
    let mut j: usize = 0;
    while j < s.groups.len()
        invariant
            j <= s.groups@.len(),
            groups@.len() == j,
            forall|l: int| 0 <= l < j ==> group_ok(#[trigger] s.groups@[l]@),
            forall|l: int| 0 <= l < j ==> decodes_to(s.groups@[l]@, #[trigger] groups@[l]),
        decreases s.groups@.len() - j,
    {
        let t = &s.groups[j];
        match decode_group(t.as_str()) {
            Err(cause) => {
                let e = DecodeError::GroupToken { substance: s.name.clone(), cause };
                assert(group_fails_first_at(*s, j as int));
                assert(is_error_for(e, s.name@, s.groups@[j as int]@));
                return Err(e);
            },
            Ok(g) => {
                if !group_id_known(g.id) {
                    let e = DecodeError::GroupSemantic { substance: s.name.clone(), id: g.id };
                    assert(group_fails_first_at(*s, j as int));
                    assert(is_error_for(e, s.name@, s.groups@[j as int]@));
                    return Err(e);
                }
                groups.push(g);
            },
        }
        j = j + 1;
    }
    Ok(SubstanceRequest { name: s.name.clone(), fraction: s.fraction, groups })
}

/// `req` is document `d` with every token decoded.
pub open spec fn decoded(d: MixtureDocument, req: MixtureRequest) -> bool {
    &&& req.temperature == d.temperature
    &&& req.substances@.len() == d.substances@.len()
    &&& forall|i: int|
        0 <= i < d.substances@.len() ==> request_of(d.substances@[i], #[trigger] req.substances@[i])
}

/// Decodes a whole document: substances in order, stopping at the first
/// substance whose groups do not all decode to groups the model knows.
pub fn decode_document(d: &MixtureDocument) -> (r: Result<MixtureRequest, DecodeError>)
    ensures
        r.is_ok() == document_ok(*d),
        r.is_ok() ==> decoded(*d, r.unwrap()),
        r.is_err() ==> exists|i: int, j: int|
            fails_first_at(*d, i, j) && is_error_for(
                #[trigger] r.unwrap_err(),
                d.substances@[i].name@,
                d.substances@[i].groups@[j]@,
            ),
{
    let mut out: Vec<SubstanceRequest> = Vec::new();
    let mut i: usize = 0;
    while i < d.substances.len()
        invariant
            i <= d.substances@.len(),
            out@.len() == i,
            forall|k: int| 0 <= k < i ==> substance_ok(#[trigger] d.substances@[k]),
            forall|k: int| 0 <= k < i ==> request_of(d.substances@[k], #[trigger] out@[k]),
        decreases d.substances@.len() - i,
    {
        match decode_substance(&d.substances[i]) {
            Err(e) => {
                let ghost j = choose|j: int|
                    group_fails_first_at(d.substances@[i as int], j) && is_error_for(
                        e,
                        d.substances@[i as int].name@,
                        d.substances@[i as int].groups@[j]@,
                    );
                assert(fails_first_at(*d, i as int, j));
                return Err(e);
            },
            Ok(req) => {
                out.push(req);
            },
        }
        i = i + 1;
    }
    Ok(MixtureRequest { temperature: d.temperature, substances: out })
}

/// One substance as the model returned it.
#[derive(Debug, PartialEq, Eq)]
pub struct ComputedSubstance {
    pub name: String,
    pub fraction: u64,
    pub groups: Vec<GroupToken>,
    pub gamma: Option<u64>,
}

/// One substance of an output document.
#[derive(Debug, PartialEq, Eq)]
pub struct OutputSubstance {
    pub name: String,
    pub fraction: u64,
    pub groups: Vec<String>,
    pub gamma: u64,
}

/// An output document: the input's shape, with a coefficient per substance.
#[derive(Debug, PartialEq, Eq)]
pub struct OutputDocument {
    pub temperature: u64,
    pub substances: Vec<OutputSubstance>,
}

/// Why an output document could not be built.
#[derive(Debug, PartialEq, Eq)]
pub enum EncodeError {
    /// The model returned the named substance without a coefficient.
    MissingCoefficient { substance: String },
}

/// `o` is computed substance `c` with its groups written as tokens.
pub open spec fn output_of(c: ComputedSubstance, o: OutputSubstance) -> bool {
    &&& o.name@ == c.name@
    &&& o.fraction == c.fraction
    &&& c.gamma == Some(o.gamma)
    &&& o.groups@.len() == c.groups@.len()
    &&& forall|j: int|
        0 <= j < c.groups@.len() ==> (#[trigger] o.groups@[j])@ == token_text(
            c.groups@[j].id as nat,
            c.groups@[j].count@,
        )
}

/// `out` is the model's substances `computed`, each written as an output entry.
pub open spec fn encoded(temperature: u64, computed: Seq<ComputedSubstance>, out: OutputDocument) -> bool {
    &&& out.temperature == temperature
    &&& out.substances@.len() == computed.len()
    &&& forall|i: int| 0 <= i < computed.len() ==> output_of(computed[i], #[trigger] out.substances@[i])
}

/// Builds the output document from the model's substances, in their order.
/// Fails at the first substance that has no coefficient.
pub fn encode_result(temperature: u64, computed: &Vec<ComputedSubstance>) -> (r: Result<
    OutputDocument,
    EncodeError,
>)
    ensures
        r.is_ok() == forall|i: int|
            0 <= i < computed@.len() ==> (#[trigger] computed@[i]).gamma.is_some(),
        r.is_ok() ==> encoded(temperature, computed@, r.unwrap()),
        r.is_err() ==> exists|i: int|
            0 <= i < computed@.len() && computed@[i].gamma.is_none() && (forall|k: int|
                0 <= k < i ==> (#[trigger] computed@[k]).gamma.is_some())
                && #[trigger] r.unwrap_err() == (EncodeError::MissingCoefficient {
                substance: computed@[i].name,
            }),
{
    let mut out: Vec<OutputSubstance> = Vec::new();
    let mut i: usize = 0;
    while i < computed.len()
        invariant
            i <= computed@.len(),
            out@.len() == i,
            forall|k: int| 0 <= k < i ==> (#[trigger] computed@[k]).gamma.is_some(),
            forall|k: int| 0 <= k < i ==> output_of(computed@[k], #[trigger] out@[k]),
        decreases computed@.len() - i,
    {
        let c = &computed[i];
        let gamma = match c.gamma {
            Some(g) => g,
            None => {
                let e = EncodeError::MissingCoefficient { substance: c.name.clone() };
                return Err(e);
            },
        };
        let mut groups: Vec<String> = Vec::new();
        let mut j: usize = 0;
        while j < c.groups.len()
            invariant
                j <= c.groups@.len(),
                groups@.len() == j,
                forall|l: int|
                    0 <= l < j ==> (#[trigger] groups@[l])@ == token_text(
                        c.groups@[l].id as nat,
                        c.groups@[l].count@,
                    ),
            decreases c.groups@.len() - j,
        {
            groups.push(encode_group(&c.groups[j]));
            j = j + 1;
        }
        out.push(OutputSubstance { name: c.name.clone(), fraction: c.fraction, groups, gamma });
        i = i + 1;
    }
    Ok(OutputDocument { temperature, substances: out })
}

pub open spec fn input_names(d: MixtureDocument) -> Set<Seq<char>> {
    Set::new(|n: Seq<char>| exists|i: int| 0 <= i < d.substances@.len() && #[trigger] d.substances@[i].name@ == n)
}

pub open spec fn output_names(o: OutputDocument) -> Set<Seq<char>> {
    Set::new(|n: Seq<char>| exists|i: int| 0 <= i < o.substances@.len() && #[trigger] o.substances@[i].name@ == n)
}

/// The model hands back one substance per requested substance, under the same names.
pub open spec fn names_kept(req: MixtureRequest, computed: Seq<ComputedSubstance>) -> bool {
    &&& computed.len() == req.substances@.len()
    &&& forall|i: int| 0 <= i < computed.len() ==> (#[trigger] computed[i]).name@ == req.substances@[i].name@
}

/// An output document names exactly the substances of the input document it
/// was computed from.
pub proof fn lemma_same_names(
    d: MixtureDocument,
    req: MixtureRequest,
    computed: Seq<ComputedSubstance>,
    out: OutputDocument,
)
    requires
        decoded(d, req),
        names_kept(req, computed),
        encoded(req.temperature, computed, out),
    ensures
        output_names(out) == input_names(d),
{
    assert forall|n: Seq<char>| output_names(out).contains(n) implies input_names(d).contains(n) by {
        let i = choose|i: int| 0 <= i < out.substances@.len() && #[trigger] out.substances@[i].name@ == n;
        assert(output_of(computed[i], out.substances@[i]));
        assert(request_of(d.substances@[i], req.substances@[i]));
        assert(d.substances@[i].name@ == n);
    }
    assert forall|n: Seq<char>| input_names(d).contains(n) implies output_names(out).contains(n) by {
        let i = choose|i: int| 0 <= i < d.substances@.len() && #[trigger] d.substances@[i].name@ == n;
        assert(output_of(computed[i], out.substances@[i]));
        assert(request_of(d.substances@[i], req.substances@[i]));
        assert(out.substances@[i].name@ == n);
    }
    assert(output_names(out) =~= input_names(d));
}

/// Decoding stops at the first bad token: the substance it reports is the
/// first one, in order, that holds a bad token, and substances after it play
/// no part in the outcome.
pub proof fn lemma_fail_fast(d: MixtureDocument, i: int, j: int, d2: MixtureDocument)
    requires
        fails_first_at(d, i, j),
        d2.substances@.len() > i,
        forall|k: int| 0 <= k <= i ==> #[trigger] d2.substances@[k] == d.substances@[k],
    ensures
        forall|i2: int, j2: int| #[trigger] fails_first_at(d, i2, j2) ==> i2 == i && j2 == j,
        fails_first_at(d2, i, j),
        !document_ok(d),
{
    assert forall|i2: int, j2: int| #[trigger] fails_first_at(d, i2, j2) implies i2 == i && j2 == j by {
        if i2 < i {
            assert(substance_ok(d.substances@[i2]));
            assert(!group_ok(d.substances@[i2].groups@[j2]@));
        } else if i < i2 {
            assert(substance_ok(d.substances@[i]));
            assert(!group_ok(d.substances@[i].groups@[j]@));
        } else if j2 < j {
            assert(group_ok(d.substances@[i].groups@[j2]@));
        } else if j < j2 {
            assert(group_ok(d.substances@[i].groups@[j]@));
        }
    }
    assert forall|k: int| 0 <= k < i implies substance_ok(#[trigger] d2.substances@[k]) by {
        assert(d2.substances@[k] == d.substances@[k]);
        assert(substance_ok(d.substances@[k]));
    }
    assert(d2.substances@[i] == d.substances@[i]);
    assert(!substance_ok(d.substances@[i]));
}

} // verus!
