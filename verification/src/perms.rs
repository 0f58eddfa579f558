//! Storage permission: an app reaches its own storage silently, and another
//! app's storage only where the permission daemon allows it; foreign access
//! is denied without a prompt.
//!
//! The daemon speaks length-framed JSON: a 4-byte little-endian length,
//! then the document. Whether the caller could be resolved, what the
//! environment allows and what the daemon answered are handed in.

use vstd::prelude::*;

use crate::assoc::{lemma_insert_fresh, lookup};
use crate::error::CoreDataError;
use crate::paths::opt_view;
use crate::value::{table_entries, Table, Val, Value};

verus! {

broadcast use vstd::string::group_string_axioms;

/// The name a caller goes by in a permission check: its bundle id, or
/// `unknown` when it could not be resolved.
pub open spec fn caller_name(caller: Option<Seq<char>>) -> Seq<char> {
    match caller {
        Some(c) => c,
        None => "unknown"@,
    }
}

/// The name a caller goes by in a permission check (see `caller_name`).
pub fn access_caller(caller: Option<&str>) -> (r: String)
    ensures
        r@ == caller_name(opt_view(caller)),
{
    match caller {
        Some(c) => c.to_string(),
        None => "unknown".to_string(),
    }
}

/// Whether the daemon has to be asked: only for a caller that is not the
/// owner.
pub fn daemon_needed(owner_bundle_id: &str, caller: &str) -> (r: bool)
    ensures
        r == (caller@ != owner_bundle_id@),
{
    !text_eq(caller, owner_bundle_id)
}

/// Equality of two texts.
fn text_eq(a: &str, b: &str) -> (r: bool)
    ensures
        r == (a@ == b@),
{
    let ac = crate::text::chars_of(a);
    let bc = crate::text::chars_of(b);
    crate::text::chars_eq(ac.as_slice(), bc.as_slice())
}

/// A `PermissionDenied` error for `caller` on the storage of `owner`.
pub open spec fn denied(e: CoreDataError, caller: Seq<char>, owner: Seq<char>) -> bool {
    e matches CoreDataError::PermissionDenied { caller: c, owner: o } && c@ == caller && o@ == owner
}

/// Whether `caller` may reach the storage of `owner_bundle_id`: the owner
/// always may; another caller only when the daemon allows it (`daemon` is
/// its answer, `None` when it could not be reached, which denies).
pub fn check_storage_access(owner_bundle_id: &str, caller: &str, daemon: Option<bool>) -> (r: Result<
    (),
    CoreDataError,
>)
    ensures
        caller@ == owner_bundle_id@ ==> r is Ok,
        caller@ != owner_bundle_id@ ==> (daemon == Some(true) <==> r is Ok),
        r matches Err(e) ==> denied(e, caller@, owner_bundle_id@),
{
    if !daemon_needed(owner_bundle_id, caller) {
        return Ok(());
    }
    match daemon {
        Some(true) => Ok(()),
        _ => Err(
            CoreDataError::PermissionDenied {
                caller: caller.to_string(),
                owner: owner_bundle_id.to_string(),
            },
        ),
    }
}

/// Make the storage permission of an owner known. Isolation is kept by the
/// files themselves, so there is nothing to register.
pub fn ensure_storage_policy(owner_bundle_id: &str) {
}

/// Whether the caller (as resolved, `None` where it could not be) owns the
/// storage.
pub fn is_owner(owner_bundle_id: &str, caller: Option<&str>) -> (r: bool)
    ensures
        r == (opt_view(caller) == Some(owner_bundle_id@)),
{
    match caller {
        Some(c) => text_eq(c, owner_bundle_id),
        None => false,
    }
}

/// The owner check of per-user and system-wide stores. A system-wide store
/// skips it (its directory keeps others out); so does a run that allows
/// foreign access (`TONTOO_COREDATA_ALLOW_FOREIGN=1`); else a resolved
/// caller other than the owner is denied, and an unresolved one passes.
pub fn enforce_access(
    owner_bundle_id: &str,
    system: bool,
    allow_foreign: bool,
    caller: Option<&str>,
) -> (r: Result<(), CoreDataError>)
    ensures
        match opt_view(caller) {
            Some(c) if !system && !allow_foreign && c != owner_bundle_id@ => r matches Err(e)
                && denied(e, c, owner_bundle_id@),
            _ => r is Ok,
        },
{
    if system {
        return Ok(());
    }
    if allow_foreign {
        return Ok(());
    }
    match caller {
        Some(c) => {
            if !text_eq(c, owner_bundle_id) {
                Err(
                    CoreDataError::PermissionDenied {
                        caller: c.to_string(),
                        owner: owner_bundle_id.to_string(),
                    },
                )
            } else {
                Ok(())
            }
        },
        None => Ok(()),
    }
}

/// The strict owner check of a per-user store: unless the run allows
/// foreign access (`TONTOO_COREDATA_ALLOW_FOREIGN=1`), only a caller that
/// resolves to the owner passes; any other caller, an unresolved one
/// (named `unknown`) among them, is denied.
pub fn enforce_owner_or_fail(owner_bundle_id: &str, allow_foreign: bool, caller: Option<&str>) -> (r:
    Result<(), CoreDataError>)
    ensures
        allow_foreign || opt_view(caller) == Some(owner_bundle_id@) ==> r is Ok,
        !allow_foreign && opt_view(caller) != Some(owner_bundle_id@) ==> (r matches Err(e)
            && denied(e, caller_name(opt_view(caller)), owner_bundle_id@)),
{
    if !allow_foreign && caller.is_none() {
        return Err(
            CoreDataError::PermissionDenied {
                caller: access_caller(caller),
                owner: owner_bundle_id.to_string(),
            },
        );
    }
    enforce_access(owner_bundle_id, false, allow_foreign, caller)
}

/// The entry under `k` of a JSON object.
pub open spec fn field(v: Val, k: Seq<char>) -> Option<Val> {
    match v {
        Val::Table(es) => lookup(es, k),
        _ => None,
    }
}

/// The request asking the daemon whether `caller` may reach the storage of
/// `owner`.
pub open spec fn request_doc(caller: Seq<char>, owner: Seq<char>) -> Val {
    Val::Table(
        seq![
            ("v"@, Val::Integer(1)),
            ("id"@, Val::Integer(1)),
            ("method"@, Val::Text("check"@)),
            (
                "params"@,
                Val::Table(
                    seq![
                        ("permission"@, Val::Text("storage"@)),
                        ("app"@, Val::Text(owner)),
                        ("caller"@, Val::Text(caller)),
                    ],
                ),
            ),
        ],
    )
}

/// The daemon request for a storage check (see `request_doc`).
pub fn daemon_request(caller: &str, owner: &str) -> (r: Value)
    ensures
        r.view() == request_doc(caller@, owner@),
{
    proof {
        reveal_strlit("v");
        reveal_strlit("id");
        reveal_strlit("method");
        reveal_strlit("params");
        reveal_strlit("permission");
        reveal_strlit("app");
        reveal_strlit("caller");
        reveal_strlit("storage");
        reveal_strlit("check");
        assert("permission"@.len() != "app"@.len());
        assert("permission"@.len() != "caller"@.len());
        assert("app"@.len() != "caller"@.len());
        assert("v"@.len() != "id"@.len());
        assert("v"@.len() != "method"@.len());
        assert("id"@.len() != "method"@.len());
        assert("v"@.len() != "params"@.len());
        assert("id"@.len() != "params"@.len());
        assert("method"@[0] != "params"@[0]);
    }
    let mut params = Table::new();
    let ghost e0 = table_entries(params);
    proof { lemma_insert_fresh(e0, "permission"@, Val::Text("storage"@)); }
    params.insert("permission".to_string(), Value::Text("storage".to_string()));
    let ghost e1 = table_entries(params);
    proof { lemma_insert_fresh(e1, "app"@, Val::Text(owner@)); }
    params.insert("app".to_string(), Value::Text(owner.to_string()));
    let ghost e2 = table_entries(params);
    proof { lemma_insert_fresh(e2, "caller"@, Val::Text(caller@)); }
    params.insert("caller".to_string(), Value::Text(caller.to_string()));
    let mut doc = Table::new();
    let ghost d0 = table_entries(doc);
    proof { lemma_insert_fresh(d0, "v"@, Val::Integer(1)); }
    doc.insert("v".to_string(), Value::Integer(1));
    let ghost d1 = table_entries(doc);
    proof { lemma_insert_fresh(d1, "id"@, Val::Integer(1)); }
    doc.insert("id".to_string(), Value::Integer(1));
    let ghost d2 = table_entries(doc);
    proof { lemma_insert_fresh(d2, "method"@, Val::Text("check"@)); }
    doc.insert("method".to_string(), Value::Text("check".to_string()));
    let ghost d3 = table_entries(doc);
    assert(table_entries(params) =~= seq![
        ("permission"@, Val::Text("storage"@)),
        ("app"@, Val::Text(owner@)),
        ("caller"@, Val::Text(caller@)),
    ]);
    let ghost pv = Val::Table(table_entries(params));
    proof { lemma_insert_fresh(d3, "params"@, pv); }
    doc.insert("params".to_string(), Value::Table(params));
    assert(table_entries(doc) =~= seq![
        ("v"@, Val::Integer(1)),
        ("id"@, Val::Integer(1)),
        ("method"@, Val::Text("check"@)),
        ("params"@, pv),
    ]);
    let r = Value::Table(doc);
    r
}

/// Whether the daemon's answer allows access: it must say `ok: true`; then
/// a `result` text allows when it is `allowed`, a `result` with a text
/// `state` when that is `allowed`, one with a boolean `allowed` as that
/// says, and anything else allows.
pub open spec fn daemon_allows(resp: Val) -> bool {
    if field(resp, "ok"@) == Some(Val::Bool(true)) {
        match field(resp, "result"@) {
            Some(Val::Text(s)) => s == "allowed"@,
            Some(res) => match field(res, "state"@) {
                Some(Val::Text(s)) => s == "allowed"@,
                _ => match field(res, "allowed"@) {
                    Some(Val::Bool(b)) => b,
                    _ => true,
                },
            },
            None => true,
        }
    } else {
        false
    }
}

/// An answer that does not say `ok: true` never allows access.
pub proof fn law_daemon_needs_ok(resp: Val)
    ensures
        field(resp, "ok"@) != Some(Val::Bool(true)) ==> !daemon_allows(resp),
{
}

/// With `ok: true`, a state the daemon gives (a text `result`, or the text
/// `state` of a `result` object) allows access exactly when it is
/// `allowed`.
pub proof fn law_daemon_state_decides(resp: Val, s: Seq<char>)
    requires
        field(resp, "ok"@) == Some(Val::Bool(true)),
    ensures
        field(resp, "result"@) == Some(Val::Text(s)) ==> (daemon_allows(resp) <==> s == "allowed"@),
        field(resp, "result"@) matches Some(res) && field(res, "state"@) == Some(Val::Text(s)) ==> (
        daemon_allows(resp) <==> s == "allowed"@),
{
}

/// With `ok: true` and a `result` object that gives no text `state`, its
/// boolean `allowed` decides; with neither (or with no `result`), access
/// is allowed.
pub proof fn law_daemon_flag_or_default(resp: Val, res: Val)
    requires
        field(resp, "ok"@) == Some(Val::Bool(true)),
    ensures
        field(resp, "result"@) is None ==> daemon_allows(resp),
        field(resp, "result"@) == Some(res) && res is Table && !(field(res, "state"@) matches Some(
            Val::Text(_),
        )) ==> match field(res, "allowed"@) {
            Some(Val::Bool(b)) => daemon_allows(resp) == b,
            _ => daemon_allows(resp),
        },
{
}

/// The entry under `k` of a JSON object.
fn get_field<'a>(v: &'a Value, k: &str) -> (r: Option<&'a Value>)
    ensures
        match field(v.view(), k@) {
            Some(x) => r matches Some(y) && y.view() == x,
            None => r is None,
        },
{
    match v.as_table() {
        Some(t) => t.get(k),
        None => None,
    }
}

/// Whether a text is `allowed`.
fn is_allowed(s: &str) -> (r: bool)
    ensures
        r == (s@ == "allowed"@),
{
    text_eq(s, "allowed")
}

/// Whether the daemon's answer allows access (see `daemon_allows`).
pub fn daemon_verdict(resp: &Value) -> (r: bool)
    ensures
        r == daemon_allows(resp.view()),
{
    let ok = match get_field(resp, "ok") {
        Some(v) => v.as_bool(),
        None => None,
    };
    match ok {
        Some(true) => {},
        _ => {
            return false;
        },
    }
    match get_field(resp, "result") {
        Some(result) => {
            match result.as_str() {
                Some(s) => {
                    return is_allowed(s);
                },
                None => {},
            }
            match get_field(result, "state") {
                Some(st) => match st.as_str() {
                    Some(s) => {
                        return is_allowed(s);
                    },
                    None => {},
                },
                None => {},
            }
            match get_field(result, "allowed") {
                Some(a) => match a.as_bool() {
                    Some(b) => {
                        return b;
                    },
                    None => {},
                },
                None => {},
            }
            true
        },
        None => true,
    }
}

/// The four little-endian bytes of a 32-bit length.
pub open spec fn le_bytes(n: u32) -> Seq<u8> {
    seq![
        (n % 256) as u8,
        ((n / 256) % 256) as u8,
        ((n / 65536) % 256) as u8,
        ((n / 16777216) % 256) as u8,
    ]
}

/// The 32-bit number four little-endian bytes hold.
pub open spec fn le_value(b: Seq<u8>) -> nat {
    (b[0] + 256 * b[1] + 65536 * b[2] + 16777216 * b[3]) as nat
}

/// The largest answer the daemon may send: 1 MiB.
pub open spec fn max_response() -> nat {
    1048576
}

/// A framed message: the payload's length (as a 32-bit number) in four
/// little-endian bytes, then the payload.
pub fn frame(payload: &[u8]) -> (r: Vec<u8>)
    ensures
        r@ == le_bytes(payload@.len() as u32) + payload@,
{
    #[verifier::truncate]
    let n: u32 = payload.len() as u32;
    let mut out: Vec<u8> = Vec::new();
    out.push((n % 256) as u8);
    out.push(((n / 256) % 256) as u8);
    out.push(((n / 65536) % 256) as u8);
    out.push(((n / 16777216) % 256) as u8);
    assert(out@ =~= le_bytes(n));
    let mut i: usize = 0;
    while i < payload.len()
        invariant
            i <= payload@.len(),
            n == payload@.len() as u32,
            out@ == le_bytes(n) + payload@.take(i as int),
        decreases payload@.len() - i,
    {
        out.push(payload[i]);
        i = i + 1;
        assert(out@ =~= le_bytes(n) + payload@.take(i as int));
    }
    assert(payload@.take(payload@.len() as int) =~= payload@);
    out
}

/// The length an answer's four length bytes announce, or `None` when it
/// is over 1 MiB (such an answer is refused).
pub fn response_len(len_buf: &[u8; 4]) -> (r: Option<usize>)
    ensures
        match r {
            Some(n) => n == le_value(len_buf@) && n <= max_response(),
            None => le_value(len_buf@) > max_response(),
        },
{
    let n: u64 = len_buf[0] as u64 + 256 * (len_buf[1] as u64) + 65536 * (len_buf[2] as u64)
        + 16777216 * (len_buf[3] as u64);
    if n > 1048576 {
        None
    } else {
        Some(n as usize)
    }
}

} // verus!
