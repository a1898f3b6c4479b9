//! The graph-document conventions: graph labels, the `@<label>` namespaces
//! they build, and the keys raw and composed metadata may carry.

use vstd::prelude::*;
use crate::text::{chars_of, push_all, push_chars, string_from_chars};

verus! {

/// The metadata key that records which graphs contributed an item.
pub const PROVENANCE_KEY: &'static str = "_graphs";

/// The namespace of the built-in filesystem graph.
pub const FS_NAMESPACE: &'static str = "@fs";

/// The namespace a graph label builds: `@` followed by the label.
pub fn namespace(label: &str) -> (r: String)
    ensures
        r@ == seq!['@'] + label@,
{
    let mut r = String::new();
    r.push('@');
    push_all(&mut r, label);
    r
}

/// Why a label or a metadata key was refused.
#[derive(Debug, Clone, PartialEq, Eq)]
pub enum ValidationError {
    EmptyLabel,
    SigilInLabel(String),
    SigilInRawKey(String),
    InvalidComposedKey(String),
    InvalidNamespace(String),
}

impl ValidationError {
    /// The error's message.
    pub fn message(&self) -> (r: String)
        ensures
            r@ == match self {
                ValidationError::EmptyLabel => "graph label must not be empty"@,
                ValidationError::SigilInLabel(l) => "graph label '"@ + l@ + "' must not contain '@' or start with '_'"@,
                ValidationError::SigilInRawKey(k) => "raw metadata key '"@ + k@ + "' must be bare (no leading '@' or '_')"@,
                ValidationError::InvalidComposedKey(k) => "composed metadata key '"@ + k@
                    + "' is invalid: expected an '@<graph>' namespace or '_graphs'"@,
                ValidationError::InvalidNamespace(n) => "composed metadata namespace '@"@ + n@
                    + "' must name a bare graph (no '@' or '_')"@,
            },
    {
        let mut r = String::new();
        match self {
            ValidationError::EmptyLabel => {
                push_all(&mut r, "graph label must not be empty");
            },
            ValidationError::SigilInLabel(l) => {
                push_all(&mut r, "graph label '");
                push_all(&mut r, l.as_str());
                push_all(&mut r, "' must not contain '@' or start with '_'");
            },
            ValidationError::SigilInRawKey(k) => {
                push_all(&mut r, "raw metadata key '");
                push_all(&mut r, k.as_str());
                push_all(&mut r, "' must be bare (no leading '@' or '_')");
            },
            ValidationError::InvalidComposedKey(k) => {
                push_all(&mut r, "composed metadata key '");
                push_all(&mut r, k.as_str());
                push_all(&mut r, "' is invalid: expected an '@<graph>' namespace or '_graphs'");
            },
            ValidationError::InvalidNamespace(n) => {
                push_all(&mut r, "composed metadata namespace '@");
                push_all(&mut r, n.as_str());
                push_all(&mut r, "' must name a bare graph (no '@' or '_')");
            },
        }
        r
    }
}

/// Whether a label carries a reserved sigil: an `@` anywhere, or a leading
/// `_`.
pub open spec fn has_sigil(label: Seq<char>) -> bool {
    label.contains('@') || (label.len() > 0 && label[0] == '_')
}

/// Validate that a graph label is non-empty and free of the reserved sigils:
/// no `@` anywhere (it builds the `@<label>` namespace) and no leading `_`
/// (reserved for keys like `_graphs`). Interior `_` is allowed.
pub fn validate_label(label: &str) -> (r: Result<(), ValidationError>)
    ensures
        label@.len() == 0 ==> r == Err::<(), ValidationError>(ValidationError::EmptyLabel),
        label@.len() > 0 && has_sigil(label@) ==> (r matches Err(ValidationError::SigilInLabel(l)) && l@ == label@),
        label@.len() > 0 && !has_sigil(label@) ==> r is Ok,
{
    let cs = chars_of(label);
    if cs.len() == 0 {
        return Err(ValidationError::EmptyLabel);
    }
    let mut has_at = false;
    let mut i: usize = 0;
    while i < cs.len()
        invariant
            i <= cs@.len(),
            cs@ == label@,
            has_at == (exists|j: int| 0 <= j < i && cs@[j] == '@'),
        decreases cs@.len() - i,
    {
        if cs[i] == '@' {
            has_at = true;
        }
        i = i + 1;
    }
    proof {
        if label@.contains('@') {
            let j = choose|j: int| 0 <= j < label@.len() && label@[j] == '@';
        }
    }
    if has_at || cs[0] == '_' {
        return Err(ValidationError::SigilInLabel(string_from_chars(&cs)));
    }
    Ok(())
}

/// Whether a raw metadata key starts with a reserved sigil.
pub open spec fn raw_key_bad(k: Seq<char>) -> bool {
    k.len() > 0 && (k[0] == '@' || k[0] == '_')
}

/// Validate that a raw fragment's metadata keys (in map order) are all bare:
/// no key may begin with `@` or `_`. The first key that does is reported.
pub fn validate_raw_metadata(keys: &Vec<String>) -> (r: Result<(), ValidationError>)
    ensures
        r is Ok <==> forall|i: int| 0 <= i < keys@.len() ==> !raw_key_bad(#[trigger] keys@[i]@),
        r is Err ==> exists|i: int|
            0 <= i < keys@.len() && raw_key_bad(#[trigger] keys@[i]@) && (forall|j: int| 0 <= j < i ==> !raw_key_bad(keys@[j]@))
                && (r matches Err(ValidationError::SigilInRawKey(k)) && k@ == keys@[i]@),
{
    let mut i: usize = 0;
    while i < keys.len()
        invariant
            i <= keys@.len(),
            forall|j: int| 0 <= j < i ==> !raw_key_bad(#[trigger] keys@[j]@),
        decreases keys@.len() - i,
    {
        let cs = chars_of(keys[i].as_str());
        if cs.len() > 0 && (cs[0] == '@' || cs[0] == '_') {
            let k = string_from_chars(&cs);
            let e = ValidationError::SigilInRawKey(k);
            assert(raw_key_bad(keys@[i as int]@));
            return Err(e);
        }
        i = i + 1;
    }
    Ok(())
}

/// Whether `label` is a valid graph label.
pub open spec fn label_ok(label: Seq<char>) -> bool {
    label.len() > 0 && !has_sigil(label)
}

/// Whether a composed metadata key is the provenance key or a namespace that
/// names a valid graph label.
pub open spec fn composed_key_ok(k: Seq<char>) -> bool {
    k == "_graphs"@ || (k.len() > 0 && k[0] == '@' && label_ok(k.drop_first()))
}

/// The error a composed key that is not accepted earns: a bad namespace when
/// it starts with `@`, an invalid key otherwise.
pub open spec fn composed_key_error(k: Seq<char>, e: ValidationError) -> bool {
    if k.len() > 0 && k[0] == '@' {
        e matches ValidationError::InvalidNamespace(n) && n@ == k.drop_first()
    } else {
        e matches ValidationError::InvalidComposedKey(n) && n@ == k
    }
}

/// Whether two strings hold the same characters.
fn same_text(a: &str, b: &str) -> (r: bool)
    ensures
        r == (a@ == b@),
{
    let x = chars_of(a);
    let y = chars_of(b);
    if x.len() != y.len() {
        return false;
    }
    let mut k: usize = 0;
    while k < x.len()
        invariant
            k <= x@.len(),
            x@ == a@,
            y@ == b@,
            x@.len() == y@.len(),
            forall|m: int| 0 <= m < k ==> x@[m] == y@[m],
        decreases x@.len() - k,
    {
        if x[k] != y[k] {
            assert(x@[k as int] != y@[k as int]);
            return false;
        }
        k = k + 1;
    }
    assert(x@ =~= y@);
    true
}

/// Validate that a composed metadata object's top-level keys (in map order)
/// are each an `@<graph>` namespace naming a valid label, or the reserved
/// `_graphs` key. The first key that is neither is reported.
pub fn validate_composed_metadata(keys: &Vec<String>) -> (r: Result<(), ValidationError>)
    ensures
        r is Ok <==> forall|i: int| 0 <= i < keys@.len() ==> composed_key_ok(#[trigger] keys@[i]@),
        r is Err ==> exists|i: int|
            0 <= i < keys@.len() && !composed_key_ok(#[trigger] keys@[i]@) && (forall|j: int|
                0 <= j < i ==> composed_key_ok(keys@[j]@)) && composed_key_error(keys@[i]@, r->Err_0),
{
    let mut i: usize = 0;
    while i < keys.len()
        invariant
            i <= keys@.len(),
            forall|j: int| 0 <= j < i ==> composed_key_ok(#[trigger] keys@[j]@),
        decreases keys@.len() - i,
    {
        let key = keys[i].as_str();
        if !same_text(key, PROVENANCE_KEY) {
            let cs = chars_of(key);
            if cs.len() > 0 && cs[0] == '@' {
                let mut rest: Vec<char> = Vec::new();
                let mut k: usize = 1;
                while k < cs.len()
                    invariant
                        1 <= k <= cs@.len(),
                        rest@ == cs@.subrange(1, k as int),
                    decreases cs@.len() - k,
                {
                    rest.push(cs[k]);
                    k = k + 1;
                }
                assert(rest@ =~= key@.drop_first());
                let name = string_from_chars(&rest);
                match validate_label(name.as_str()) {
                    Ok(()) => {},
                    Err(_) => {
                        proof {
                            assert(!composed_key_ok(keys@[i as int]@)) by {
                                reveal_strlit("_graphs");
                            }
                        }
                        return Err(ValidationError::InvalidNamespace(name));
                    },
                }
            } else {
                proof {
                    assert(!composed_key_ok(keys@[i as int]@));
                }
                return Err(ValidationError::InvalidComposedKey(string_from_chars(&cs)));
            }
        }
        i = i + 1;
    }
    Ok(())
}

} // verus!
