//! Building the error table from the service documentation.
//!
//! The documentation describes each error code as repeated `Code` /
//! `Description` / `HTTP Status Code` fields, each written as
//! `<i>FIELD:</i> content` and closed by `</p>` (content may span lines). A
//! code documented with several description paragraphs must share one status
//! across all instances and collapses to one table entry; a sentinel `N/A`
//! status means the code carries no default status; and one irregular status
//! is documented as `409 Conflict` under a `Code:` label and gets a fixed
//! textual override. Any inconsistency is a hard build-time failure, never
//! deferred to runtime. A fixed patch list then adds codes that real clients
//! rely on but the documentation lacks.

use vstd::prelude::*;
use crate::text::{SPACE, NL, LT, is_ws_spec, eq_bytes, starts_with_at, append_bytes, is_ws};
use crate::num::{slice_range, slice_suffix};
use crate::de::{bytes_to_vec, until_count, lemma_until_count_concat};
use crate::error_code::{ErrorEntry, ErrorTable, find_spec, status_text_valid, parse_status,
    status_val};
use crate::types::opt_view;
use crate::names::{t_marker_code, t_marker_desc, t_marker_status, t_p_close, t_i_open,
    n_marker_code, n_marker_desc, n_marker_status, n_p_close, n_na_text, n_na_status_line,
    n_conflict_line, n_conflict_status, n_trailer_tag, n_trailer_text, t_trailer_tag,
    n_i_open, n_i_close_sp,
    t_i_close_sp, t_na_status_line, t_conflict_line, t_conflict_status, n_repl_code, t_repl_code,
    n_repl_desc, t_repl_desc, n_repl_status, t_repl_status, n_moved_temporarily,
    t_moved_temporarily, n_range_notsat, t_range_notsat, n_slow_down, t_slow_down,
    n_temporary_redirect, t_temporary_redirect, n_range_not_satisfiable, t_range_not_satisfiable,
    n_service_unavailable, t_service_unavailable};

verus! {

/// A failure while building the error table; every one is a fail-fast
/// build-time error.
#[derive(Debug, Clone, Copy, PartialEq, Eq, Structural)]
pub enum BuildError {
    /// A line did not follow the Code / Description / HTTP Status Code shape.
    Malformed,
    /// The documentation ended inside a record.
    Truncated,
    /// A documented status line does not carry a three-digit status.
    BadStatusText,
    /// One code was documented with disagreeing statuses.
    InconsistentStatus,
}

/// One Code / Description / HTTP Status Code triplet as documented.
#[derive(Debug, Clone, PartialEq, Eq)]
pub struct ErrorDocRecord {
    pub code: Vec<u8>,
    pub description: Option<Vec<u8>>,
    pub status: Option<Vec<u8>>,
}

/// Whether a documented code string appears among the records.
pub open spec fn code_in_records(rs: Seq<ErrorDocRecord>, c: Seq<u8>) -> bool {
    exists|i: int| 0 <= i < rs.len() && (#[trigger] rs[i]).code@ == c
}

/// The collapse invariant over raw records: every repetition of a code
/// carries the identical documented status, a repeated code carries some
/// status, and every documented status is well-formed status text.
pub open spec fn records_consistent(rs: Seq<ErrorDocRecord>) -> bool {
    &&& forall|i: int, j: int|
        0 <= i < rs.len() && 0 <= j < rs.len() && (#[trigger] rs[i]).code@ == (
        #[trigger] rs[j]).code@ ==> opt_view(rs[i].status) == opt_view(rs[j].status)
    &&& forall|i: int, j: int|
        0 <= i < j < rs.len() && (#[trigger] rs[i]).code@ == (#[trigger] rs[j]).code@
            ==> rs[i].status is Some
    &&& forall|i: int|
        0 <= i < rs.len() ==> (match (#[trigger] rs[i]).status {
            Option::Some(t) => status_text_valid(t@),
            Option::None => true,
        })
}

/// Whether one record cannot be merged into a table: its status text is
/// malformed, or the table already holds its code with a different (or no)
/// documented status.
pub open spec fn add_rejects(t: ErrorTable, rec: ErrorDocRecord) -> bool {
    ||| (match rec.status {
        Option::Some(txt) => !status_text_valid(txt@),
        Option::None => false,
    })
    ||| (match find_spec(t.entries@, rec.code@) {
        Option::Some(prev) => !(prev.status_text is Some && opt_view(prev.status_text) == opt_view(
            rec.status,
        )),
        Option::None => false,
    })
}

/// Merge one documented record into the table: a new code becomes a fresh
/// entry; a repeated code must carry the identical status and contributes its
/// description paragraph to the one entry (the collapse).
pub fn add_record(t: &mut ErrorTable, rec: &ErrorDocRecord) -> (r: Result<(), BuildError>)
    requires
        old(t).wf(),
    ensures
        final(t).wf(),
        r is Err <==> add_rejects(*old(t), *rec),
        match r {
            Result::Ok(u) => {
                &&& match find_spec(final(t).entries@, rec.code@) {
                    Option::Some(e) => opt_view(e.status_text) == opt_view(rec.status),
                    Option::None => false,
                }
                &&& forall|c: Seq<u8>|
                    c != rec.code@ ==> #[trigger] find_spec(final(t).entries@, c) == find_spec(
                        old(t).entries@,
                        c,
                    )
                &&& (match rec.status {
                    Option::Some(txt) => status_text_valid(txt@),
                    Option::None => true,
                })
                &&& (match find_spec(old(t).entries@, rec.code@) {
                    Option::Some(prev) => prev.status_text is Some && opt_view(prev.status_text)
                        == opt_view(rec.status),
                    Option::None => true,
                })
            },
            Result::Err(e2) => *final(t) == *old(t),
        },
{
    let parsed: (Option<Vec<u8>>, Option<u16>) = match &rec.status {
        Option::Some(txt) => {
            match parse_status(txt.as_slice()) {
                Option::Some(v) => (Option::Some(bytes_to_vec(txt.as_slice())), Option::Some(v)),
                Option::None => {
                    return Err(BuildError::BadStatusText);
                },
            }
        },
        Option::None => (Option::None, Option::None),
    };
    let (status_text, status) = parsed;
    let ghost olds = t.entries@;
    match t.find_index(rec.code.as_slice()) {
        Option::Some(i) => {
            let matches_prev: bool = match (&t.entries[i].status_text, &rec.status) {
                (Option::Some(a), Option::Some(b)) => eq_bytes(a.as_slice(), b.as_slice()),
                _ => false,
            };
            if !matches_prev {
                return Err(BuildError::InconsistentStatus);
            }
            proof {
                assert forall|j: int|
                    0 <= j < olds.len() && j != i implies (#[trigger] olds[j].code@)
                    != rec.code@ by {
                    if olds[j].code@ == rec.code@ {
                        assert(olds[i as int].code@ == olds[j].code@);
                    }
                }
            }
            if let Option::Some(d) = &rec.description {
                let dv = bytes_to_vec(d.as_slice());
                let ghost oldent = t.entries@[i as int];
                let slot = &mut t.entries[i];
                slot.descriptions.push(dv);
                proof {
                    let newent = t.entries@[i as int];
                    assert(t.entries@ =~= olds.update(i as int, newent));
                    assert(newent.code@ == oldent.code@);
                    assert(newent.status_text == oldent.status_text);
                    assert(newent.status == oldent.status);
                    assert forall|c: Seq<u8>| c != rec.code@ implies #[trigger] find_spec(
                        t.entries@,
                        c,
                    ) == find_spec(olds, c) by {
                        crate::error_code::lemma_find_spec_update(olds, i as int, newent, c);
                    }
                    assert(find_spec(t.entries@, rec.code@) == Option::Some(newent)) by {
                        crate::error_code::lemma_find_spec_update(
                            olds,
                            i as int,
                            newent,
                            rec.code@,
                        );
                    }
                }
            } else {
                proof {
                    assert(t.entries@ =~= olds);
                }
            }
            Ok(())
        },
        Option::None => {
            let mut descriptions: Vec<Vec<u8>> = Vec::new();
            if let Option::Some(d) = &rec.description {
                descriptions.push(bytes_to_vec(d.as_slice()));
            }
            let entry = ErrorEntry {
                code: bytes_to_vec(rec.code.as_slice()),
                descriptions,
                status_text,
                status,
            };
            t.upsert(entry);
            Ok(())
        },
    }
}

/// Build the table from raw records, collapsing repeated codes.
///
/// Construction succeeds exactly when the records satisfy the collapse
/// invariant; the resulting table holds exactly the documented codes, one
/// entry each, carrying the documented status.
pub fn build_table(records: &Vec<ErrorDocRecord>) -> (r: Result<ErrorTable, BuildError>)
    ensures
        match r {
            Result::Ok(t) => {
                &&& t.wf()
                &&& records_consistent(records@)
                &&& forall|c: Seq<u8>|
                    #[trigger] t.contains_code(c) <==> code_in_records(records@, c)
                &&& forall|i: int|
                    0 <= i < records@.len() ==> (match find_spec(
                        t.entries@,
                        (#[trigger] records@[i]).code@,
                    ) {
                        Option::Some(e) => opt_view(e.status_text) == opt_view(
                            records@[i].status,
                        ),
                        Option::None => false,
                    })
            },
            Result::Err(e2) => !records_consistent(records@),
        },
{
    let n = records.len();
    let mut t = ErrorTable::new();
    let mut k: usize = 0;
    proof {
        assert(records@.take(0) =~= Seq::<ErrorDocRecord>::empty());
    }
    while k < n
        invariant
            n == records@.len(),
            k <= n,
            t.wf(),
            records_consistent(records@.take(k as int)),
            forall|c: Seq<u8>| #[trigger] t.contains_code(c) <==> code_in_records(records@.take(k as int), c),
            forall|i: int|
                0 <= i < k ==> (match find_spec(t.entries@, (#[trigger] records@[i]).code@) {
                    Option::Some(e) => opt_view(e.status_text) == opt_view(records@[i].status),
                    Option::None => false,
                }),
        decreases n - k,
    {
        let ghost pre = t;
        let rec = &records[k];
        let res = add_record(&mut t, rec);
        match res {
            Result::Ok(u) => {},
            Result::Err(e) => {
                proof {
                    lemma_reject_inconsistent(pre, records@, k as int);
                }
                return Err(e);
            },
        }
        proof {
            lemma_step_consistent(pre, t, records@, k as int);
        }
        k = k + 1;
    }
    proof {
        assert(records@.take(n as int) =~= records@);
    }
    Ok(t)
}

/// A rejected record is a witness that the whole record list breaks the
/// collapse invariant.
proof fn lemma_reject_inconsistent(pre: ErrorTable, rs: Seq<ErrorDocRecord>, k: int)
    requires
        0 <= k < rs.len(),
        pre.wf(),
        records_consistent(rs.take(k)),
        forall|c: Seq<u8>| #[trigger] pre.contains_code(c) <==> code_in_records(rs.take(k), c),
        forall|i: int|
            0 <= i < k ==> (match find_spec(pre.entries@, (#[trigger] rs[i]).code@) {
                Option::Some(e) => opt_view(e.status_text) == opt_view(rs[i].status),
                Option::None => false,
            }),
        add_rejects(pre, rs[k]),
    ensures
        !records_consistent(rs),
{
    let rec = rs[k];
    if (match rec.status {
        Option::Some(txt) => !status_text_valid(txt@),
        Option::None => false,
    }) {
        assert(!(match rs[k].status {
            Option::Some(t) => status_text_valid(t@),
            Option::None => true,
        }));
    } else {
        let prev = find_spec(pre.entries@, rec.code@)->Some_0;
        assert(pre.contains_code(rec.code@));
        assert(code_in_records(rs.take(k), rec.code@));
        let i = choose|i: int| 0 <= i < rs.take(k).len() && (#[trigger] rs.take(k)[i]).code@
            == rec.code@;
        assert(rs.take(k)[i] == rs[i]);
        assert(opt_view(prev.status_text) == opt_view(rs[i].status));
        if records_consistent(rs) {
            assert(rs[i].code@ == rs[k].code@);
            assert(opt_view(rs[i].status) == opt_view(rs[k].status));
            assert(rs[i].status is Some);
            assert(prev.status_text is Some);
            assert(false);
        }
    }
}

/// Accepting a record extends the collapse invariant and the code set to the
/// next prefix.
proof fn lemma_step_consistent(pre: ErrorTable, post: ErrorTable, rs: Seq<ErrorDocRecord>, k: int)
    requires
        0 <= k < rs.len(),
        pre.wf(),
        post.wf(),
        records_consistent(rs.take(k)),
        forall|c: Seq<u8>| #[trigger] pre.contains_code(c) <==> code_in_records(rs.take(k), c),
        forall|i: int|
            0 <= i < k ==> (match find_spec(pre.entries@, (#[trigger] rs[i]).code@) {
                Option::Some(e) => opt_view(e.status_text) == opt_view(rs[i].status),
                Option::None => false,
            }),
        // what add_record ensures on success:
        (match find_spec(post.entries@, rs[k].code@) {
            Option::Some(e) => opt_view(e.status_text) == opt_view(rs[k].status),
            Option::None => false,
        }),
        forall|c: Seq<u8>|
            c != rs[k].code@ ==> #[trigger] find_spec(post.entries@, c) == find_spec(
                pre.entries@,
                c,
            ),
        (match rs[k].status {
            Option::Some(txt) => status_text_valid(txt@),
            Option::None => true,
        }),
        (match find_spec(pre.entries@, rs[k].code@) {
            Option::Some(prev) => prev.status_text is Some && opt_view(prev.status_text)
                == opt_view(rs[k].status),
            Option::None => true,
        }),
    ensures
        records_consistent(rs.take(k + 1)),
        forall|c: Seq<u8>| #[trigger] post.contains_code(c) <==> code_in_records(rs.take(k + 1), c),
        forall|i: int|
            0 <= i < k + 1 ==> (match find_spec(post.entries@, (#[trigger] rs[i]).code@) {
                Option::Some(e) => opt_view(e.status_text) == opt_view(rs[i].status),
                Option::None => false,
            }),
{
    let tk = rs.take(k);
    let tk1 = rs.take(k + 1);
    assert(forall|i: int| 0 <= i < k + 1 ==> #[trigger] tk1[i] == rs[i]);
    assert(forall|i: int| 0 <= i < k ==> #[trigger] tk[i] == rs[i]);

    // the status view of any record with the new record's code agrees with it
    assert forall|i: int|
        0 <= i < k && (#[trigger] rs[i]).code@ == rs[k].code@ implies opt_view(rs[i].status)
        == opt_view(rs[k].status) && rs[i].status is Some by {
        assert(tk[i] == rs[i]);
        assert(0 <= i < tk.len() && tk[i].code@ == rs[k].code@);
        assert(code_in_records(tk, rs[k].code@));
        assert(pre.contains_code(rs[k].code@));
        let prev = find_spec(pre.entries@, rs[k].code@)->Some_0;
        assert(opt_view(prev.status_text) == opt_view(rs[i].status));
        assert(prev.status_text is Some);
        assert(opt_view(prev.status_text) == opt_view(rs[k].status));
    }

    // collapse invariant on the longer prefix
    assert forall|i: int, j: int|
        0 <= i < tk1.len() && 0 <= j < tk1.len() && (#[trigger] tk1[i]).code@ == (
        #[trigger] tk1[j]).code@ implies opt_view(tk1[i].status) == opt_view(tk1[j].status) by {
        if i < k && j < k {
            assert(tk[i] == rs[i] && tk[j] == rs[j]);
        }
    }
    assert forall|i: int, j: int|
        0 <= i < j < tk1.len() && (#[trigger] tk1[i]).code@ == (#[trigger] tk1[j]).code@ implies
        tk1[i].status is Some by {
        if j < k {
            assert(tk[i] == rs[i] && tk[j] == rs[j]);
        }
    }
    assert forall|i: int| 0 <= i < tk1.len() implies (match (#[trigger] tk1[i]).status {
        Option::Some(t) => status_text_valid(t@),
        Option::None => true,
    }) by {
        if i < k {
            assert(tk[i] == rs[i]);
        }
    }

    // the code set grows by exactly the new record's code
    assert forall|c: Seq<u8>| #[trigger] post.contains_code(c) implies code_in_records(tk1, c) by {
        if c == rs[k].code@ {
            assert(tk1[k] == rs[k]);
        } else {
            assert(find_spec(post.entries@, c) == find_spec(pre.entries@, c));
            assert(pre.contains_code(c));
            let i = choose|i: int| 0 <= i < tk.len() && (#[trigger] tk[i]).code@ == c;
            assert(tk1[i] == rs[i]);
        }
    }
    assert forall|c: Seq<u8>| code_in_records(tk1, c) implies #[trigger] post.contains_code(c) by {
        let i = choose|i: int| 0 <= i < tk1.len() && (#[trigger] tk1[i]).code@ == c;
        if i < k {
            assert(tk[i] == rs[i]);
            assert(code_in_records(tk, c));
            assert(pre.contains_code(c));
            if c != rs[k].code@ {
                assert(find_spec(post.entries@, c) == find_spec(pre.entries@, c));
            }
        }
    }

    // the status mapping covers the new record too
    assert forall|i: int|
        0 <= i < k + 1 implies (match find_spec(post.entries@, (#[trigger] rs[i]).code@) {
        Option::Some(e) => opt_view(e.status_text) == opt_view(rs[i].status),
        Option::None => false,
    }) by {
        if rs[i].code@ == rs[k].code@ {
        } else {
            assert(find_spec(post.entries@, rs[i].code@) == find_spec(pre.entries@, rs[i].code@));
        }
    }
}

/// Add the error codes that real clients rely on but that are absent from
/// the published documentation: the replication-configuration-not-found code
/// with its fixed 404 status.
pub fn patch_extra_errors(errors: &mut ErrorTable)
    requires
        old(errors).wf(),
    ensures
        final(errors).wf(),
        match find_spec(final(errors).entries@, n_repl_code()) {
            Option::Some(e) => {
                &&& opt_view(e.status_text) == Option::Some(n_repl_status())
                &&& e.status == Option::Some(404u16)
                &&& e.descriptions@.len() == 1 && e.descriptions@[0]@ == n_repl_desc()
            },
            Option::None => false,
        },
        forall|c: Seq<u8>|
            c != n_repl_code() ==> #[trigger] find_spec(final(errors).entries@, c) == find_spec(
                old(errors).entries@,
                c,
            ),
{
    let mut descriptions: Vec<Vec<u8>> = Vec::new();
    descriptions.push(bytes_to_vec(t_repl_desc()));
    let status_text = bytes_to_vec(t_repl_status());
    proof {
        assert(status_text_valid(n_repl_status()));
        assert(status_val(n_repl_status()) == 404);
    }
    let entry = ErrorEntry {
        code: bytes_to_vec(t_repl_code()),
        descriptions,
        status_text: Option::Some(status_text),
        status: Option::Some(404u16),
    };
    errors.upsert(entry);
}

/// The result of heck's SHOUTY_SNAKE_CASE conversion.
pub uninterp spec fn shouty_of(s: Seq<u8>) -> Seq<u8>;

/// Relies on heck's `ToShoutySnakeCase` for `str`: the SHOUTY_SNAKE_CASE form
/// of a phrase, a function of its characters alone.
#[verifier::external_body]
fn shouty_snake(s: &[u8]) -> (r: Vec<u8>)
    ensures
        r@ == shouty_of(s@),
{
    let text = String::from_utf8_lossy(s);
    heck::ToShoutySnakeCase::to_shouty_snake_case(text.as_ref()).into_bytes()
}

/// Whether a documented status line can be named: well-formed status text
/// with a reason phrase, and each of the three irregular phrasings appearing
/// only with its documented status number.
pub open spec fn status_name_ok(s: Seq<u8>) -> bool {
    &&& status_text_valid(s)
    &&& s.len() >= 4
    &&& (s.skip(4) == n_moved_temporarily() ==> status_val(s) == 307)
    &&& (s.skip(4) == n_range_notsat() ==> status_val(s) == 416)
    &&& (s.skip(4) == n_slow_down() ==> status_val(s) == 503)
}

/// The constant name a documented status line maps to.
pub open spec fn status_name_spec(s: Seq<u8>) -> Seq<u8> {
    if s.skip(4) == n_moved_temporarily() {
        n_temporary_redirect()
    } else if s.skip(4) == n_range_notsat() {
        n_range_not_satisfiable()
    } else if s.skip(4) == n_slow_down() {
        n_service_unavailable()
    } else {
        shouty_of(s.skip(4))
    }
}

/// The name of the HTTP status constant for a documented status line
/// (`404 Not Found` becomes `NOT_FOUND`), with the three irregular phrasings
/// the documentation uses pinned to their fixed names.
pub fn status_const_name(status: &[u8]) -> (r: Result<Vec<u8>, BuildError>)
    ensures
        r is Ok <==> status_name_ok(status@),
        r matches Ok(v) ==> v@ == status_name_spec(status@),
{
    match parse_status(status) {
        Option::Some(v) => {
            if status.len() < 4 {
                return Err(BuildError::BadStatusText);
            }
            let tail = slice_suffix(status, 4);
            if eq_bytes(tail, t_moved_temporarily()) {
                if v != 307 {
                    return Err(BuildError::BadStatusText);
                }
                Ok(bytes_to_vec(t_temporary_redirect()))
            } else if eq_bytes(tail, t_range_notsat()) {
                if v != 416 {
                    return Err(BuildError::BadStatusText);
                }
                Ok(bytes_to_vec(t_range_not_satisfiable()))
            } else if eq_bytes(tail, t_slow_down()) {
                if v != 503 {
                    return Err(BuildError::BadStatusText);
                }
                Ok(bytes_to_vec(t_service_unavailable()))
            } else {
                Ok(shouty_snake(tail))
            }
        },
        Option::None => Err(BuildError::BadStatusText),
    }
}


/// Whether a byte string holds no line break, so it can sit inside one
/// documented field.
pub open spec fn field_text_ok(s: Seq<u8>) -> bool {
    forall|k: int| 0 <= k < s.len() ==> (#[trigger] s[k]) != NL
}

/// Whether a byte string holds no literal `<`.
pub open spec fn no_lt_text(s: Seq<u8>) -> bool {
    forall|k: int| 0 <= k < s.len() ==> (#[trigger] s[k]) != LT
}

/// Whether a byte string holds no `</p>` terminator.
pub open spec fn no_p_close(s: Seq<u8>) -> bool {
    forall|k: int| 0 <= k <= s.len() - 4 ==> #[trigger] s.subrange(k, k + 4) != n_p_close()
}

/// One `<i>TAG</i> REST` line of the documentation.
#[verifier::opaque]
pub open spec fn tagged_line(tag: Seq<u8>, rest0: Seq<u8>) -> Seq<u8> {
    n_i_open() + (tag + (n_i_close_sp() + rest0))
}

/// How one documented triplet writes its HTTP status line.
pub enum DocStatus {
    /// `<i>HTTP Status Code:</i> TEXT</p>`
    Written(Seq<u8>),
    /// The `N/A` sentinel: the code carries no default status.
    NotAvailable,
    /// The irregular one-off: `409 Conflict` mislabelled under a `Code:` tag.
    ConflictLabeled,
}

/// The status a documented triplet contributes to its record: written text
/// verbatim, nothing for the `N/A` sentinel, and the fixed `409 Conflict`
/// override for the mislabelled form.
pub open spec fn status_of_item(st: DocStatus) -> Option<Seq<u8>> {
    match st {
        DocStatus::Written(t) => Option::Some(t),
        DocStatus::NotAvailable => Option::None,
        DocStatus::ConflictLabeled => Option::Some(n_conflict_status()),
    }
}

#[verifier::opaque]
pub open spec fn status_line_of(st: DocStatus) -> Seq<u8> {
    match st {
        DocStatus::Written(t) => tagged_line(n_marker_status(), t + n_p_close()),
        DocStatus::NotAvailable => tagged_line(n_marker_status(), n_na_text() + n_p_close()),
        DocStatus::ConflictLabeled => tagged_line(
            n_marker_code(),
            n_conflict_status() + n_p_close(),
        ),
    }
}

/// One documented Code / Description / HTTP Status Code triplet, as the
/// published listing shapes it.
pub struct DocItem {
    pub code: Seq<u8>,
    pub description: Seq<u8>,
    pub status: DocStatus,
}

/// Well-formed fields of one triplet in the canonical shape: a non-empty
/// code with no line break and no early terminator, a single-line
/// description, and written status text that does not imitate the `N/A`
/// sentinel.
pub open spec fn item_wf(it: DocItem) -> bool {
    &&& it.code.len() > 0
    &&& field_text_ok(it.code)
    &&& no_p_close(it.code)
    &&& field_text_ok(it.description)
    &&& (match it.status {
        DocStatus::Written(t) => field_text_ok(t) && !(t.len() >= 3 && t.subrange(0, 3)
            == n_na_text()),
        _ => true,
    })
}

pub open spec fn doc_wf(items: Seq<DocItem>) -> bool {
    forall|i: int| 0 <= i < items.len() ==> item_wf(#[trigger] items[i])
}

/// The canonical rendering of one triplet: its code line, description line,
/// status line, and the fault-code label line the parser consumes and
/// ignores, each closed by `</p>` and a line break.
#[verifier::opaque]
pub open spec fn item_render(it: DocItem) -> Seq<u8> {
    tagged_line(n_marker_code(), it.code + n_p_close()) + (seq![NL] + item_rest1(it))
}

#[verifier::opaque]
pub open spec fn item_rest1(it: DocItem) -> Seq<u8> {
    tagged_line(n_marker_desc(), it.description + n_p_close()) + (seq![NL] + item_rest2(it))
}

#[verifier::opaque]
pub open spec fn item_rest2(it: DocItem) -> Seq<u8> {
    status_line_of(it.status) + (seq![NL] + item_rest3())
}

#[verifier::opaque]
pub open spec fn item_rest3() -> Seq<u8> {
    tagged_line(n_trailer_tag(), n_trailer_text() + n_p_close()) + seq![NL]
}

/// The canonical rendering of a whole documentation block.
pub open spec fn doc_render(items: Seq<DocItem>) -> Seq<u8>
    decreases items.len(),
{
    if items.len() == 0 {
        Seq::empty()
    } else {
        item_render(items[0]) + doc_render(items.skip(1))
    }
}

/// Whether a parsed record carries exactly what one documented triplet says.
pub open spec fn record_matches_item(rec: ErrorDocRecord, it: DocItem) -> bool {
    &&& rec.code@ == it.code
    &&& opt_view(rec.description) == Option::Some(it.description)
    &&& opt_view(rec.status) == status_of_item(it.status)
}

/// The next input line, trimmed of surrounding whitespace: its bounds and
/// the cursor position after the line; nothing at the end of input. A line
/// that is already free of surrounding whitespace and closed by a line break
/// comes back whole, with the cursor just past the break.
fn next_line(doc: &[u8], pos: usize) -> (r: Option<(usize, usize, usize)>)
    requires
        pos <= doc@.len(),
    ensures
        match r {
            Option::Some(t) => pos <= t.0 <= t.1 <= doc@.len() && pos < t.2 <= doc@.len(),
            Option::None => true,
        },
        pos == doc@.len() ==> r is None,
        r is None ==> pos == doc@.len(),
        ({
            let rem = doc@.skip(pos as int);
            let ll = until_count(rem, NL) as int;
            (ll < rem.len() && ll > 0 && !is_ws_spec(rem[0]) && !is_ws_spec(rem[ll - 1])) ==> (r
                matches Option::Some(t) && t.0 == pos && t.1 as int == pos + ll && t.2 as int == pos
                + ll + 1)
        }),
{
    let ghost rem = doc@.skip(pos as int);
    let ghost ll = until_count(rem, NL) as int;
    let ghost good = ll < rem.len() && ll > 0 && !is_ws_spec(rem[0]) && !is_ws_spec(rem[ll - 1]);
    let n = doc.len();
    if pos >= n {
        return None;
    }
    let mut e: usize = pos;
    proof {
        crate::de::lemma_until_count_le(rem, NL);
        assert(rem.skip(0) =~= rem);
    }
    while e < n && doc[e] != NL
        invariant
            n == doc@.len(),
            pos <= e <= n,
            rem == doc@.skip(pos as int),
            until_count(rem, NL) == (e - pos) + until_count(doc@.skip(e as int), NL),
        decreases n - e,
    {
        proof {
            let cur = doc@.skip(e as int);
            assert(cur[0] == doc@[e as int]);
            assert(cur.skip(1) =~= doc@.skip(e as int + 1));
            assert(until_count(cur, NL) == 1 + until_count(cur.skip(1), NL));
        }
        e = e + 1;
    }
    proof {
        if e < n {
            assert(doc@.skip(e as int)[0] == doc@[e as int]);
            assert(until_count(doc@.skip(e as int), NL) == 0);
        } else {
            assert(doc@.skip(e as int) =~= Seq::<u8>::empty());
        }
        assert(ll == e - pos);
        if good {
            assert(rem[0] == doc@[pos as int]);
            assert(rem[ll - 1] == doc@[pos + ll - 1]);
            assert(e < n);
        }
    }
    let np = if e < n {
        e + 1
    } else {
        n
    };
    let mut s2: usize = pos;
    let mut e2: usize = e;
    while s2 < e2 && is_ws(doc[s2])
        invariant
            n == doc@.len(),
            pos <= s2 <= e2 <= n,
            e2 == e,
            good ==> s2 == pos,
            good ==> !is_ws_spec(doc@[pos as int]),
        decreases e2 - s2,
    {
        s2 = s2 + 1;
    }
    while e2 > s2 && is_ws(doc[e2 - 1])
        invariant
            n == doc@.len(),
            pos <= s2 <= e2 <= n,
            good ==> s2 == pos,
            good ==> (e2 == e && !is_ws_spec(doc@[pos + ll - 1]) && e == pos + ll && ll > 0),
        decreases e2 - s2,
    {
        e2 = e2 - 1;
    }
    Some((s2, e2, np))
}

/// The position of the first occurrence of `needle` in `h`.
fn find_sub(h: &[u8], needle: &[u8]) -> (r: Option<usize>)
    ensures
        match r {
            Option::Some(i) => i + needle@.len() <= h@.len() && h@.subrange(
                i as int,
                i as int + needle@.len(),
            ) == needle@ && (forall|k: int|
                0 <= k < i ==> #[trigger] h@.subrange(k, k + needle@.len()) != needle@),
            Option::None => forall|k: int|
                0 <= k && k + needle@.len() <= h@.len() ==> #[trigger] h@.subrange(
                    k,
                    k + needle@.len(),
                ) != needle@,
        },
{
    if needle.len() == 0 {
        proof {
            assert(h@.subrange(0, 0) =~= needle@);
        }
        return Some(0);
    }
    if needle.len() > h.len() {
        return None;
    }
    let hn = h.len();
    let limit = hn - needle.len();
    let mut i: usize = 0;
    while i <= limit
        invariant
            hn == h@.len(),
            1 <= needle@.len() <= h@.len(),
            limit == h@.len() - needle@.len(),
            i <= limit + 1,
            forall|k: int| 0 <= k < i ==> #[trigger] h@.subrange(k, k + needle@.len()) != needle@,
        decreases limit + 1 - i,
    {
        if starts_with_at(h, i, needle) {
            return Some(i);
        }
        i = i + 1;
    }
    None
}

/// Split a documentation line at its `<i>FIELD:</i> ` marker into the field
/// name and the content after it; lines without a marker split into nothing.
/// A line of exactly that shape, whose field name holds no `<`, splits into
/// exactly its field name and content.
#[verifier::rlimit(100)]
fn split_tagged(line: &[u8]) -> (r: Option<(Vec<u8>, Vec<u8>)>)
    ensures
        forall|tagtxt: Seq<u8>, rest0: Seq<u8>|
            (line@ == #[trigger] tagged_line(tagtxt, rest0) && no_lt_text(tagtxt) && tagtxt.len()
                > 0 && rest0.len() > 0) ==> (r matches Option::Some(p) && p.0@ == tagtxt && p.1@
                == rest0),
{
    let a = match find_sub(line, t_i_open()) {
        Option::Some(a) => a,
        Option::None => {
            proof {
                reveal(tagged_line);
                assert forall|tagtxt: Seq<u8>, rest0: Seq<u8>|
                    (line@ == #[trigger] tagged_line(tagtxt, rest0) && no_lt_text(tagtxt)
                        && tagtxt.len() > 0 && rest0.len() > 0) implies false by {
                            reveal(tagged_line);
                    assert(n_i_open().len() == 3);
                    assert(line@.subrange(0, 0 + n_i_open().len() as int) =~= n_i_open());
                }
            }
            return None;
        },
    };
    let ln = line.len();
    proof {
        reveal(tagged_line);
        assert(n_i_open().len() == 3);
        assert(a + 3 <= ln);
    }
    let after = slice_suffix(line, a + 3);
    let ghost shaped = exists|tagtxt: Seq<u8>, rest0: Seq<u8>|
        line@ == #[trigger] tagged_line(tagtxt, rest0) && no_lt_text(tagtxt) && tagtxt.len() > 0
            && rest0.len() > 0;
    proof {
        reveal(tagged_line);
        if shaped {
            let (tagtxt, rest0) = choose|tagtxt: Seq<u8>, rest0: Seq<u8>|
                line@ == #[trigger] tagged_line(tagtxt, rest0) && no_lt_text(tagtxt)
                    && tagtxt.len() > 0 && rest0.len() > 0;
            assert(n_i_open().len() == 3);
            assert(line@.subrange(0, 0 + n_i_open().len() as int) =~= n_i_open());
            assert(a == 0);
            assert(after@ =~= tagtxt + (n_i_close_sp() + rest0));
        }
    }
    let b = match find_sub(after, t_i_close_sp()) {
        Option::Some(b) => b,
        Option::None => {
            proof {
                reveal(tagged_line);
                assert forall|tagtxt: Seq<u8>, rest0: Seq<u8>|
                    (line@ == #[trigger] tagged_line(tagtxt, rest0) && no_lt_text(tagtxt)
                        && tagtxt.len() > 0 && rest0.len() > 0) implies false by {
                            reveal(tagged_line);
                    assert(n_i_open().len() == 3);
                    assert(n_i_close_sp().len() == 5);
                    assert(line@.subrange(0, 0 + n_i_open().len() as int) =~= n_i_open());
                    assert(a == 0);
                    assert(after@ =~= tagtxt + (n_i_close_sp() + rest0));
                    assert(after@.subrange(
                        tagtxt.len() as int,
                        tagtxt.len() + n_i_close_sp().len() as int,
                    ) =~= n_i_close_sp());
                }
            }
            return None;
        },
    };
    let an = after.len();
    proof {
        reveal(tagged_line);
        assert(n_i_close_sp().len() == 5);
        assert(b + 5 <= an);
        if shaped {
            let (tagtxt, rest0) = choose|tagtxt: Seq<u8>, rest0: Seq<u8>|
                line@ == #[trigger] tagged_line(tagtxt, rest0) && no_lt_text(tagtxt)
                    && tagtxt.len() > 0 && rest0.len() > 0;
            assert(after@.subrange(tagtxt.len() as int, tagtxt.len() as int + 5)
                =~= n_i_close_sp());
            assert forall|k: int| 0 <= k < tagtxt.len() implies #[trigger] after@.subrange(
                k,
                k + 5,
            ) != n_i_close_sp() by {
                reveal(tagged_line);
                assert(after@.subrange(k, k + 5)[0] == after@[k]);
                assert(after@[k] == tagtxt[k]);
                assert(n_i_close_sp()[0] == LT);
            }
            assert(b == tagtxt.len());
        }
    }
    if b == 0 {
        proof {
            reveal(tagged_line);
            if shaped {
                assert(false);
            }
        }
        return None;
    }
    let tag = bytes_to_vec(slice_range(after, 0, b));
    if b + 5 >= an {
        proof {
            reveal(tagged_line);
            if shaped {
                assert(false);
            }
        }
        return None;
    }
    let rest = bytes_to_vec(slice_suffix(after, b + 5));
    proof {
        reveal(tagged_line);
        if shaped {
            let (tagtxt, rest0) = choose|tagtxt: Seq<u8>, rest0: Seq<u8>|
                line@ == #[trigger] tagged_line(tagtxt, rest0) && no_lt_text(tagtxt)
                    && tagtxt.len() > 0 && rest0.len() > 0;
            assert(tag@ =~= tagtxt);
            assert(rest@ =~= rest0);
            assert forall|tagtxt2: Seq<u8>, rest02: Seq<u8>|
                (line@ == #[trigger] tagged_line(tagtxt2, rest02) && no_lt_text(tagtxt2)
                    && tagtxt2.len() > 0 && rest02.len() > 0) implies (tag@ == tagtxt2 && rest@
                == rest02) by {
                    reveal(tagged_line);
                assert(tagged_line(tagtxt2, rest02).subrange(
                    3 + b as int,
                    3 + b + 5 as int,
                ) =~= after@.subrange(b as int, b + 5 as int));
                assert forall|k: int| 0 <= k < tagtxt2.len() implies #[trigger] after@.subrange(
                    k,
                    k + 5,
                ) != n_i_close_sp() by {
                    reveal(tagged_line);
                    assert(after@.subrange(k, k + 5)[0] == after@[k]);
                    assert(after@[k] == tagtxt2[k]);
                    assert(n_i_close_sp()[0] == LT);
                }
                assert(after@.subrange(tagtxt2.len() as int, tagtxt2.len() as int + 5)
                    =~= n_i_close_sp());
                assert(b == tagtxt2.len());
                assert(tag@ =~= tagtxt2);
                assert(rest@ =~= rest02);
            }
        }
    }
    Some((tag, rest))
}

/// A canonical documentation line holds no line break, starts with `<`, and
/// has a known length.
proof fn lemma_tagged_line_bytes(tag: Seq<u8>, rest0: Seq<u8>)
    requires
        field_text_ok(tag),
        field_text_ok(rest0),
    ensures
        forall|k: int|
            0 <= k < tagged_line(tag, rest0).len() ==> #[trigger] tagged_line(tag, rest0)[k] != NL,
        tagged_line(tag, rest0).len() == 8 + tag.len() + rest0.len(),
        tagged_line(tag, rest0)[0] == LT,
        rest0.len() > 0 ==> tagged_line(tag, rest0)[tagged_line(tag, rest0).len() - 1]
            == rest0[rest0.len() - 1],
{
    reveal(tagged_line);
    let ll = tagged_line(tag, rest0);
    assert(n_i_open().len() == 3);
    assert(n_i_close_sp().len() == 5);
    assert forall|k: int| 0 <= k < ll.len() implies #[trigger] ll[k] != NL by {
        if k < 3 {
            assert(ll[k] == n_i_open()[k]);
        } else if k < 3 + tag.len() {
            assert(ll[k] == tag[k - 3]);
        } else if k < 8 + tag.len() {
            assert(ll[k] == n_i_close_sp()[k - 3 - tag.len()]);
        } else {
            assert(ll[k] == rest0[k - 8 - tag.len()]);
        }
    }
    assert(ll[0] == n_i_open()[0]);
    if rest0.len() > 0 {
        assert(ll[ll.len() - 1] == rest0[rest0.len() - 1]);
    }
}

/// Scan to the next line carrying a field marker, skipping other lines.
/// Returns the field name, the content after the marker, the whole trimmed
/// line, and the cursor after it; nothing at the end of input. At a
/// canonical field line the scan returns exactly its parts and stops just
/// past its line break.
#[verifier::rlimit(100)]
fn next_tagged(doc: &[u8], pos: usize) -> (r: (Option<(Vec<u8>, Vec<u8>, Vec<u8>)>, usize))
    requires
        pos <= doc@.len(),
    ensures
        pos <= r.1 <= doc@.len(),
        r.0 is Some ==> pos < r.1,
        pos == doc@.len() ==> (r.0 is None && r.1 == pos),
        forall|tagtxt: Seq<u8>, rest0: Seq<u8>, tail: Seq<u8>|
            (doc@.skip(pos as int) == #[trigger] (tagged_line(tagtxt, rest0) + (seq![NL] + tail))
                && no_lt_text(tagtxt) && field_text_ok(tagtxt) && field_text_ok(rest0)
                && tagtxt.len() > 0 && rest0.len() > 0 && !is_ws_spec(rest0[rest0.len() - 1])) ==> (
            r.0 matches Option::Some(x) && x.0@ == tagtxt && x.1@ == rest0 && x.2@ == tagged_line(
                tagtxt,
                rest0,
            ) && r.1 as int == pos + tagged_line(tagtxt, rest0).len() + 1),
{
    let ghost shaped = exists|tagtxt: Seq<u8>, rest0: Seq<u8>, tail: Seq<u8>|
        doc@.skip(pos as int) == #[trigger] (tagged_line(tagtxt, rest0) + (seq![NL] + tail))
            && no_lt_text(tagtxt) && field_text_ok(tagtxt) && field_text_ok(rest0) && tagtxt.len()
            > 0 && rest0.len() > 0 && !is_ws_spec(rest0[rest0.len() - 1]);
    let mut p: usize = pos;
    loop
        invariant
            pos <= p <= doc@.len(),
            shaped ==> p == pos,
            shaped == exists|tagtxt: Seq<u8>, rest0: Seq<u8>, tail: Seq<u8>|
                doc@.skip(pos as int) == #[trigger] (tagged_line(tagtxt, rest0) + (seq![NL] + tail))
                    && no_lt_text(tagtxt) && field_text_ok(tagtxt) && field_text_ok(rest0)
                    && tagtxt.len() > 0 && rest0.len() > 0 && !is_ws_spec(rest0[rest0.len() - 1]),
        decreases doc@.len() - p,
    {
        let ghost lineinfo: (Seq<u8>, Seq<u8>, Seq<u8>) = if shaped {
            choose|tagtxt: Seq<u8>, rest0: Seq<u8>, tail: Seq<u8>|
                doc@.skip(pos as int) == #[trigger] (tagged_line(tagtxt, rest0) + (seq![NL] + tail))
                    && no_lt_text(tagtxt) && field_text_ok(tagtxt) && field_text_ok(rest0)
                    && tagtxt.len() > 0 && rest0.len() > 0 && !is_ws_spec(rest0[rest0.len() - 1])
        } else {
            (Seq::empty(), Seq::empty(), Seq::empty())
        };
        proof {
            reveal(tagged_line);
            if shaped {
                let (tagtxt, rest0, tail) = lineinfo;
                let lln = tagged_line(tagtxt, rest0);
                lemma_tagged_line_bytes(tagtxt, rest0);
                assert((seq![NL] + tail)[0] == NL);
                lemma_until_count_concat(lln, seq![NL] + tail, NL);
                assert(until_count(doc@.skip(p as int), NL) == lln.len());
                assert(doc@.skip(p as int)[0] == lln[0]);
                assert(doc@.skip(p as int)[lln.len() - 1] == lln[lln.len() - 1]);
                assert(!is_ws_spec(LT));
            }
        }
        let (ls, le, np) = match next_line(doc, p) {
            Option::Some(t) => t,
            Option::None => {
                proof {
                    reveal(tagged_line);
                    if shaped {
                        let (tagtxt, rest0, tail) = lineinfo;
                        assert(doc@.skip(p as int).len() > 0);
                        assert(false);
                    }
                }
                return (None, p);
            },
        };
        let line = slice_range(doc, ls, le);
        proof {
            reveal(tagged_line);
            if shaped {
                let (tagtxt, rest0, tail) = lineinfo;
                let lln = tagged_line(tagtxt, rest0);
                assert(ls == p && le as int == p + lln.len() && np as int == p + lln.len() + 1);
                assert(line@ =~= lln);
            }
        }
        match split_tagged(line) {
            Option::Some(tr) => {
                let whole = bytes_to_vec(line);
                proof {
                    reveal(tagged_line);
                    assert forall|tagtxt2: Seq<u8>, rest02: Seq<u8>, tail2: Seq<u8>|
                        (doc@.skip(pos as int) == #[trigger] (tagged_line(tagtxt2, rest02) + (
                        seq![NL] + tail2)) && no_lt_text(tagtxt2) && field_text_ok(tagtxt2)
                            && field_text_ok(rest02) && tagtxt2.len() > 0 && rest02.len() > 0
                            && !is_ws_spec(rest02[rest02.len() - 1])) implies (tr.0@ == tagtxt2
                        && tr.1@ == rest02 && whole@ == tagged_line(tagtxt2, rest02) && np as int
                        == pos + tagged_line(tagtxt2, rest02).len() + 1) by {
                            reveal(tagged_line);
                        let lln2 = tagged_line(tagtxt2, rest02);
                        lemma_tagged_line_bytes(tagtxt2, rest02);
                        assert((seq![NL] + tail2)[0] == NL);
                        lemma_until_count_concat(lln2, seq![NL] + tail2, NL);
                        assert(until_count(doc@.skip(pos as int), NL) == lln2.len());
                        assert(p == pos);
                        assert(line@ =~= lln2);
                    }
                }
                return (Some((tr.0, tr.1, whole)), np);
            },
            Option::None => {
                proof {
                    reveal(tagged_line);
                    if shaped {
                        let (tagtxt, rest0, tail) = lineinfo;
                        assert(false);
                    }
                }
                p = np;
            },
        }
    }
}

/// Gather one field's content: the part already on the marker line, then
/// further lines until one ends with `</p>`, which is stripped. Description
/// parts are joined with single spaces; status parts are joined directly.
fn gather_field(doc: &[u8], pos: usize, first: &[u8], join_space: bool) -> (r: (Result<
    Vec<u8>,
    BuildError,
>, usize))
    requires
        pos <= doc@.len(),
    ensures
        pos <= r.1 <= doc@.len(),
        (first@.len() >= 4 && first@.subrange(first@.len() - 4, first@.len() as int)
            == n_p_close()) ==> (r.0 matches Result::Ok(out) && out@ == first@.subrange(
            0,
            first@.len() - 4,
        ) && r.1 == pos),
{
    let ghost done_now = first@.len() >= 4 && first@.subrange(first@.len() - 4, first@.len() as int)
        == n_p_close();
    let mut acc: Vec<u8> = Vec::new();
    let mut cur: Vec<u8> = bytes_to_vec(first);
    let mut p: usize = pos;
    loop
        invariant
            pos <= p <= doc@.len(),
            done_now ==> (p == pos && acc@.len() == 0 && cur@ == first@),
            done_now == (first@.len() >= 4 && first@.subrange(first@.len() - 4, first@.len() as int)
                == n_p_close()),
        decreases doc@.len() - p,
    {
        let cl = cur.len();
        if cl >= 4 && starts_with_at(cur.as_slice(), cl - 4, t_p_close()) {
            if join_space && acc.len() > 0 && cl > 4 {
                acc.push(SPACE);
            }
            let ghost accpre = acc@;
            append_bytes(&mut acc, slice_range(cur.as_slice(), 0, cl - 4));
            proof {
                if done_now {
                    assert(acc@ =~= first@.subrange(0, first@.len() - 4));
                }
            }
            return (Ok(acc), p);
        }
        proof {
            if done_now {
                assert(cur@.subrange(cur@.len() - 4, cur@.len() as int) == n_p_close());
                assert(n_p_close().len() == 4);
                assert(false);
            }
        }
        if join_space && acc.len() > 0 && cl > 0 {
            acc.push(SPACE);
        }
        append_bytes(&mut acc, cur.as_slice());
        let (ls, le, np) = match next_line(doc, p) {
            Option::Some(t) => t,
            Option::None => return (Err(BuildError::Truncated), p),
        };
        cur = bytes_to_vec(slice_range(doc, ls, le));
        p = np;
    }
}

/// How one canonically rendered triplet decomposes, line by line, at a
/// position in the documentation: the four field lines, their contents, and
/// the facts the scanning primitives need at each of them.
#[verifier::rlimit(100)]
proof fn lemma_item_steps(it: DocItem, more: Seq<u8>, doc: Seq<u8>, pos0: int)
    requires
        item_wf(it),
        0 <= pos0 <= doc.len(),
        doc.skip(pos0) == item_render(it) + more,
    ensures
        ({
            let coderest = it.code + n_p_close();
            let descrest = it.description + n_p_close();
            let codeline = tagged_line(n_marker_code(), coderest);
            let descline = tagged_line(n_marker_desc(), descrest);
            let stline = status_line_of(it.status);
            let trrest = n_trailer_text() + n_p_close();
            let trline = tagged_line(n_trailer_tag(), trrest);
            let pos1 = pos0 + codeline.len() + 1;
            let pos2 = pos1 + descline.len() + 1;
            let pos3 = pos2 + stline.len() + 1;
            let pos4 = pos3 + trline.len() + 1;
            &&& pos4 <= doc.len()
            &&& doc.skip(pos0) == tagged_line(n_marker_code(), coderest) + (seq![NL] + doc.skip(
                pos1,
            ))
            &&& doc.skip(pos1) == tagged_line(n_marker_desc(), descrest) + (seq![NL] + doc.skip(
                pos2,
            ))
            &&& doc.skip(pos2) == stline + (seq![NL] + doc.skip(pos3))
            &&& doc.skip(pos3) == tagged_line(n_trailer_tag(), trrest) + (seq![NL] + doc.skip(
                pos4,
            ))
            &&& doc.skip(pos4) == more
            // the fixed field markers
            &&& no_lt_text(n_marker_code()) && field_text_ok(n_marker_code()) && n_marker_code().len() > 0
            &&& no_lt_text(n_marker_desc()) && field_text_ok(n_marker_desc()) && n_marker_desc().len() > 0
            &&& no_lt_text(n_marker_status()) && field_text_ok(n_marker_status()) && n_marker_status().len() > 0
            &&& no_lt_text(n_trailer_tag()) && field_text_ok(n_trailer_tag()) && n_trailer_tag().len() > 0
            // the code line's content: text closed by the first terminator
            &&& field_text_ok(coderest) && coderest.len() > 0 && !is_ws_spec(
                coderest[coderest.len() - 1],
            )
            &&& coderest.subrange(it.code.len() as int, it.code.len() + 4 as int) == n_p_close()
            &&& (forall|k: int|
                0 <= k < it.code.len() ==> #[trigger] coderest.subrange(k, k + 4) != n_p_close())
            // the description line's content
            &&& field_text_ok(descrest) && descrest.len() > 0 && !is_ws_spec(
                descrest[descrest.len() - 1],
            )
            &&& descrest.len() >= 4 && descrest.subrange(descrest.len() - 4, descrest.len() as int)
                == n_p_close()
            &&& descrest.subrange(0, descrest.len() - 4) == it.description
            // the status line, by its three forms
            &&& (match it.status {
                DocStatus::Written(t) => {
                    let strest = t + n_p_close();
                    &&& stline == tagged_line(n_marker_status(), strest)
                    &&& field_text_ok(strest) && strest.len() > 0 && !is_ws_spec(
                        strest[strest.len() - 1],
                    )
                    &&& strest.len() >= 4 && strest.subrange(strest.len() - 4, strest.len() as int)
                        == n_p_close()
                    &&& strest.subrange(0, strest.len() - 4) == t
                    &&& !(n_na_status_line().len() <= stline.len() && stline.subrange(
                        0,
                        n_na_status_line().len() as int,
                    ) == n_na_status_line())
                    &&& !(n_conflict_line().len() <= stline.len() && stline.subrange(
                        0,
                        n_conflict_line().len() as int,
                    ) == n_conflict_line())
                },
                DocStatus::NotAvailable => {
                    let strest = n_na_text() + n_p_close();
                    &&& stline == tagged_line(n_marker_status(), strest)
                    &&& field_text_ok(strest) && strest.len() > 0 && !is_ws_spec(
                        strest[strest.len() - 1],
                    )
                    &&& n_na_status_line().len() <= stline.len() && stline.subrange(
                        0,
                        n_na_status_line().len() as int,
                    ) == n_na_status_line()
                },
                DocStatus::ConflictLabeled => {
                    let strest = n_conflict_status() + n_p_close();
                    &&& stline == tagged_line(n_marker_code(), strest)
                    &&& field_text_ok(strest) && strest.len() > 0 && !is_ws_spec(
                        strest[strest.len() - 1],
                    )
                    &&& !(n_na_status_line().len() <= stline.len() && stline.subrange(
                        0,
                        n_na_status_line().len() as int,
                    ) == n_na_status_line())
                    &&& n_conflict_line().len() <= stline.len() && stline.subrange(
                        0,
                        n_conflict_line().len() as int,
                    ) == n_conflict_line()
                },
            })
            // the trailer line's content
            &&& field_text_ok(trrest) && trrest.len() > 0 && !is_ws_spec(trrest[trrest.len() - 1])
        }),
{
    reveal(tagged_line);
    reveal(status_line_of);
    reveal(item_render);
    reveal(item_rest1);
    reveal(item_rest2);
    reveal(item_rest3);
    let coderest = it.code + n_p_close();
    let descrest = it.description + n_p_close();
    let codeline = tagged_line(n_marker_code(), coderest);
    let descline = tagged_line(n_marker_desc(), descrest);
    let stline = status_line_of(it.status);
    let trrest = n_trailer_text() + n_p_close();
    let trline = tagged_line(n_trailer_tag(), trrest);
    let pos1 = pos0 + codeline.len() + 1;
    let pos2 = pos1 + descline.len() + 1;
    let pos3 = pos2 + stline.len() + 1;
    let pos4 = pos3 + trline.len() + 1;
    assert(n_p_close().len() == 4);
    assert forall|k: int| 0 <= k < coderest.len() implies (#[trigger] coderest[k]) != NL by {
        if k < it.code.len() {
            assert(coderest[k] == it.code[k]);
        } else {
            assert(coderest[k] == n_p_close()[k - it.code.len()]);
        }
    }
    assert forall|k: int| 0 <= k < descrest.len() implies (#[trigger] descrest[k]) != NL by {
        if k < it.description.len() {
            assert(descrest[k] == it.description[k]);
        } else {
            assert(descrest[k] == n_p_close()[k - it.description.len()]);
        }
    }
    assert(coderest[coderest.len() - 1] == n_p_close()[3]);
    assert(descrest[descrest.len() - 1] == n_p_close()[3]);
    assert(trrest[trrest.len() - 1] == n_p_close()[3]);
    assert(coderest.subrange(it.code.len() as int, it.code.len() + 4 as int) =~= n_p_close());
    assert forall|k: int| 0 <= k < it.code.len() implies #[trigger] coderest.subrange(k, k + 4)
        != n_p_close() by {
        if k + 4 <= it.code.len() {
            assert(coderest.subrange(k, k + 4) =~= it.code.subrange(k, k + 4));
        } else {
            let off = it.code.len() - k;
            assert(0 < off < 4);
            assert(coderest.subrange(k, k + 4)[off] == coderest[it.code.len() as int]);
            assert(coderest[it.code.len() as int] == n_p_close()[0]);
            if coderest.subrange(k, k + 4) == n_p_close() {
                assert(n_p_close()[off] == n_p_close()[0]);
                assert(false);
            }
        }
    }
    assert(descrest.subrange(descrest.len() - 4, descrest.len() as int) =~= n_p_close());
    assert(descrest.subrange(0, descrest.len() - 4) =~= it.description);
    // the status line per form
    match it.status {
        DocStatus::Written(t) => {
            let strest = t + n_p_close();
            assert forall|k: int| 0 <= k < strest.len() implies (#[trigger] strest[k]) != NL by {
                if k < t.len() {
                    assert(strest[k] == t[k]);
                } else {
                    assert(strest[k] == n_p_close()[k - t.len()]);
                }
            }
            assert(strest[strest.len() - 1] == n_p_close()[3]);
            assert(strest.subrange(strest.len() - 4, strest.len() as int) =~= n_p_close());
            assert(strest.subrange(0, strest.len() - 4) =~= t);
            assert(n_na_status_line().len() == 28);
            assert(n_marker_status().len() == 17);
            assert(stline.len() == 25 + strest.len());
            assert(n_na_status_line().subrange(0, 25) =~= n_i_open() + (n_marker_status()
                + n_i_close_sp()));
            if stline.subrange(0, 28) == n_na_status_line() {
                assert(stline.subrange(0, 28)[25] == strest[0]);
                assert(stline.subrange(0, 28)[26] == strest[1]);
                assert(stline.subrange(0, 28)[27] == strest[2]);
                assert(n_na_status_line()[25] == 0x4e && n_na_status_line()[26] == 0x2f
                    && n_na_status_line()[27] == 0x41);
                if t.len() >= 3 {
                    assert(strest[0] == t[0] && strest[1] == t[1] && strest[2] == t[2]);
                    assert(t.subrange(0, 3) =~= n_na_text());
                    assert(false);
                } else if t.len() == 2 {
                    assert(strest[2] == n_p_close()[0]);
                    assert(false);
                } else if t.len() == 1 {
                    assert(strest[1] == n_p_close()[0]);
                    assert(false);
                } else {
                    assert(strest[0] == n_p_close()[0]);
                    assert(false);
                }
            }
            assert(n_conflict_line().len() == 25);
            if n_conflict_line().len() <= stline.len() && stline.subrange(0, 25)
                == n_conflict_line() {
                assert(stline.subrange(0, 25)[3] == n_marker_status()[0]);
                assert(n_conflict_line()[3] == 0x43);
                assert(n_marker_status()[0] == 0x48);
                assert(false);
            }
        },
        DocStatus::NotAvailable => {
            let strest = n_na_text() + n_p_close();
            assert forall|k: int| 0 <= k < strest.len() implies (#[trigger] strest[k]) != NL by {
                if k < 3 {
                    assert(strest[k] == n_na_text()[k]);
                } else {
                    assert(strest[k] == n_p_close()[k - 3]);
                }
            }
            assert(strest[strest.len() - 1] == n_p_close()[3]);
            assert(n_na_status_line().len() == 28);
            assert(stline.len() == 32);
            assert(stline.subrange(0, 28) =~= n_na_status_line());
        },
        DocStatus::ConflictLabeled => {
            let strest = n_conflict_status() + n_p_close();
            assert forall|k: int| 0 <= k < strest.len() implies (#[trigger] strest[k]) != NL by {
                if k < 12 {
                    assert(strest[k] == n_conflict_status()[k]);
                } else {
                    assert(strest[k] == n_p_close()[k - 12]);
                }
            }
            assert(strest[strest.len() - 1] == n_p_close()[3]);
            assert(n_na_status_line().len() == 28);
            assert(n_conflict_line().len() == 25);
            assert(stline.len() == 29);
            assert(stline.subrange(0, 25) =~= n_conflict_line());
            if stline.subrange(0, 28) == n_na_status_line() {
                assert(stline.subrange(0, 28)[3] == n_marker_code()[0]);
                assert(n_na_status_line()[3] == 0x48);
                assert(n_marker_code()[0] == 0x43);
                assert(false);
            }
        },
    }
    assert forall|k: int| 0 <= k < trrest.len() implies (#[trigger] trrest[k]) != NL by {
        if k < 6 {
            assert(trrest[k] == n_trailer_text()[k]);
        } else {
            assert(trrest[k] == n_p_close()[k - 6]);
        }
    }
    // the positional decompositions
    let s0 = doc.skip(pos0);
    assert(s0 =~= codeline + (seq![NL] + (item_rest1(it) + more)));
    vstd::seq_lib::lemma_seq_skip_of_skip(doc, pos0, codeline.len() as int + 1);
    assert(doc.skip(pos1) =~= item_rest1(it) + more);
    assert(doc.skip(pos0) =~= codeline + (seq![NL] + doc.skip(pos1)));
    assert(doc.skip(pos1) =~= descline + (seq![NL] + (item_rest2(it) + more)));
    vstd::seq_lib::lemma_seq_skip_of_skip(doc, pos1, descline.len() as int + 1);
    assert(doc.skip(pos2) =~= item_rest2(it) + more);
    assert(doc.skip(pos1) =~= descline + (seq![NL] + doc.skip(pos2)));
    assert(doc.skip(pos2) =~= stline + (seq![NL] + (item_rest3() + more)));
    vstd::seq_lib::lemma_seq_skip_of_skip(doc, pos2, stline.len() as int + 1);
    assert(doc.skip(pos3) =~= item_rest3() + more);
    assert(doc.skip(pos2) =~= stline + (seq![NL] + doc.skip(pos3)));
    assert(doc.skip(pos3) =~= trline + (seq![NL] + more));
    vstd::seq_lib::lemma_seq_skip_of_skip(doc, pos3, trline.len() as int + 1);
    assert(doc.skip(pos4) =~= more);
    assert(doc.skip(pos3) =~= trline + (seq![NL] + doc.skip(pos4)));
}


/// The code line of a rendered triplet, projected from `lemma_item_steps`.
proof fn lemma_step_code(it: DocItem, more: Seq<u8>, doc: Seq<u8>, pos0: int)
    requires
        item_wf(it),
        0 <= pos0 <= doc.len(),
        doc.skip(pos0) == item_render(it) + more,
    ensures
        ({
            let coderest = it.code + n_p_close();
            let pos1 = pos0 + tagged_line(n_marker_code(), coderest).len() + 1;
            &&& pos1 <= doc.len()
            &&& doc.skip(pos0) == tagged_line(n_marker_code(), coderest) + (seq![NL] + doc.skip(
                pos1,
            ))
            &&& no_lt_text(n_marker_code()) && field_text_ok(n_marker_code())
                && n_marker_code().len() > 0
            &&& field_text_ok(coderest) && coderest.len() > 0 && !is_ws_spec(
                coderest[coderest.len() - 1],
            )
            &&& coderest.subrange(it.code.len() as int, it.code.len() + 4 as int) == n_p_close()
            &&& (forall|k: int|
                0 <= k < it.code.len() ==> #[trigger] coderest.subrange(k, k + 4) != n_p_close())
        }),
{
    lemma_item_steps(it, more, doc, pos0);
}

/// The description line, projected from `lemma_item_steps`.
proof fn lemma_step_desc(it: DocItem, more: Seq<u8>, doc: Seq<u8>, pos0: int)
    requires
        item_wf(it),
        0 <= pos0 <= doc.len(),
        doc.skip(pos0) == item_render(it) + more,
    ensures
        ({
            let descrest = it.description + n_p_close();
            let pos1 = pos0 + tagged_line(n_marker_code(), it.code + n_p_close()).len() + 1;
            let pos2 = pos1 + tagged_line(n_marker_desc(), descrest).len() + 1;
            &&& pos2 <= doc.len()
            &&& doc.skip(pos1) == tagged_line(n_marker_desc(), descrest) + (seq![NL] + doc.skip(
                pos2,
            ))
            &&& no_lt_text(n_marker_desc()) && field_text_ok(n_marker_desc())
                && n_marker_desc().len() > 0
            &&& field_text_ok(descrest) && descrest.len() > 0 && !is_ws_spec(
                descrest[descrest.len() - 1],
            )
            &&& descrest.len() >= 4 && descrest.subrange(descrest.len() - 4, descrest.len() as int)
                == n_p_close()
            &&& descrest.subrange(0, descrest.len() - 4) == it.description
        }),
{
    lemma_item_steps(it, more, doc, pos0);
}

/// The status line, projected from `lemma_item_steps`.
proof fn lemma_step_status(it: DocItem, more: Seq<u8>, doc: Seq<u8>, pos0: int)
    requires
        item_wf(it),
        0 <= pos0 <= doc.len(),
        doc.skip(pos0) == item_render(it) + more,
    ensures
        ({
            let stline = status_line_of(it.status);
            let pos1 = pos0 + tagged_line(n_marker_code(), it.code + n_p_close()).len() + 1;
            let pos2 = pos1 + tagged_line(n_marker_desc(), it.description + n_p_close()).len() + 1;
            let pos3 = pos2 + stline.len() + 1;
            &&& pos3 <= doc.len()
            &&& doc.skip(pos2) == stline + (seq![NL] + doc.skip(pos3))
            &&& no_lt_text(n_marker_status()) && field_text_ok(n_marker_status())
                && n_marker_status().len() > 0
            &&& (match it.status {
                DocStatus::Written(t) => {
                    let strest = t + n_p_close();
                    &&& stline == tagged_line(n_marker_status(), strest)
                    &&& field_text_ok(strest) && strest.len() > 0 && !is_ws_spec(
                        strest[strest.len() - 1],
                    )
                    &&& strest.len() >= 4 && strest.subrange(strest.len() - 4, strest.len() as int)
                        == n_p_close()
                    &&& strest.subrange(0, strest.len() - 4) == t
                    &&& !(n_na_status_line().len() <= stline.len() && stline.subrange(
                        0,
                        n_na_status_line().len() as int,
                    ) == n_na_status_line())
                    &&& !(n_conflict_line().len() <= stline.len() && stline.subrange(
                        0,
                        n_conflict_line().len() as int,
                    ) == n_conflict_line())
                },
                DocStatus::NotAvailable => {
                    let strest = n_na_text() + n_p_close();
                    &&& stline == tagged_line(n_marker_status(), strest)
                    &&& field_text_ok(strest) && strest.len() > 0 && !is_ws_spec(
                        strest[strest.len() - 1],
                    )
                    &&& n_na_status_line().len() <= stline.len() && stline.subrange(
                        0,
                        n_na_status_line().len() as int,
                    ) == n_na_status_line()
                },
                DocStatus::ConflictLabeled => {
                    let strest = n_conflict_status() + n_p_close();
                    &&& stline == tagged_line(n_marker_code(), strest)
                    &&& field_text_ok(strest) && strest.len() > 0 && !is_ws_spec(
                        strest[strest.len() - 1],
                    )
                    &&& !(n_na_status_line().len() <= stline.len() && stline.subrange(
                        0,
                        n_na_status_line().len() as int,
                    ) == n_na_status_line())
                    &&& n_conflict_line().len() <= stline.len() && stline.subrange(
                        0,
                        n_conflict_line().len() as int,
                    ) == n_conflict_line()
                },
            })
        }),
{
    lemma_item_steps(it, more, doc, pos0);
}

/// The trailer line and the position after the whole triplet, projected from
/// `lemma_item_steps`.
proof fn lemma_step_trailer(it: DocItem, more: Seq<u8>, doc: Seq<u8>, pos0: int)
    requires
        item_wf(it),
        0 <= pos0 <= doc.len(),
        doc.skip(pos0) == item_render(it) + more,
    ensures
        ({
            let trrest = n_trailer_text() + n_p_close();
            let pos1 = pos0 + tagged_line(n_marker_code(), it.code + n_p_close()).len() + 1;
            let pos2 = pos1 + tagged_line(n_marker_desc(), it.description + n_p_close()).len() + 1;
            let pos3 = pos2 + status_line_of(it.status).len() + 1;
            let pos4 = pos3 + tagged_line(n_trailer_tag(), trrest).len() + 1;
            &&& pos4 <= doc.len()
            &&& doc.skip(pos3) == tagged_line(n_trailer_tag(), trrest) + (seq![NL] + doc.skip(
                pos4,
            ))
            &&& doc.skip(pos4) == more
            &&& no_lt_text(n_trailer_tag()) && field_text_ok(n_trailer_tag())
                && n_trailer_tag().len() > 0
            &&& field_text_ok(trrest) && trrest.len() > 0 && !is_ws_spec(trrest[trrest.len() - 1])
        }),
{
    lemma_item_steps(it, more, doc, pos0);
}

/// Parse the documentation's repeated Code / Description / HTTP Status Code
/// fields into raw records. Lines without a field marker between records are
/// ignored; a marker out of place, a code missing its `</p>` terminator, or
/// input ending inside a record is a hard failure. After each status one
/// trailing marker line (the fault-code label) is consumed and ignored.
///
/// On a canonically shaped documentation block the parse succeeds and yields
/// exactly one record per documented triplet, in order: the code verbatim,
/// the description verbatim, and the status — written text verbatim, absent
/// for the `N/A` sentinel, and the fixed `409 Conflict` override for the
/// status mislabelled under a `Code:` tag. No documented code is dropped.
#[verifier::rlimit(100)]
pub fn parse_error_doc(doc: &[u8]) -> (r: Result<Vec<ErrorDocRecord>, BuildError>)
    ensures
        forall|items: Seq<DocItem>|
            (doc_wf(items) && doc@ == #[trigger] doc_render(items)) ==> (r matches Result::Ok(rs)
                && rs@.len() == items.len() && (forall|t: int|
                0 <= t < items.len() ==> record_matches_item(#[trigger] rs@[t], items[t]))),
{
    let mut records: Vec<ErrorDocRecord> = Vec::new();
    let mut pos: usize = 0;
    proof {
        assert forall|items: Seq<DocItem>|
            (doc_wf(items) && doc@ == #[trigger] doc_render(items)) implies (records@.len()
            <= items.len() && doc@.skip(pos as int) == doc_render(
            items.skip(records@.len() as int),
        )) by {
            assert(doc@.skip(0) =~= doc@);
            assert(items.skip(0) =~= items);
        }
    }
    loop
        invariant
            pos <= doc@.len(),
            forall|items: Seq<DocItem>|
                (doc_wf(items) && doc@ == #[trigger] doc_render(items)) ==> {
                    &&& records@.len() <= items.len()
                    &&& (forall|t: int|
                        0 <= t < records@.len() ==> record_matches_item(
                            #[trigger] records@[t],
                            items[t],
                        ))
                    &&& doc@.skip(pos as int) == doc_render(items.skip(records@.len() as int))
                },
        decreases doc@.len() - pos,
    {
        let ghost pos0 = pos as int;
        let ghost k0 = records@.len() as int;
        let (first, after1) = next_tagged(doc, pos);
        let head = match first {
            Option::Some(x) => x,
            Option::None => {
                proof {
                    assert forall|items: Seq<DocItem>|
                        (doc_wf(items) && doc@ == #[trigger] doc_render(items)) implies (
                    records@.len() == items.len() && (forall|t: int|
                        0 <= t < items.len() ==> record_matches_item(
                            #[trigger] records@[t],
                            items[t],
                        ))) by {
                        if k0 < items.len() {
                            assert(item_wf(items[k0]));
                            assert(items.skip(k0)[0] == items[k0]);
                            assert(items.skip(k0).skip(1) =~= items.skip(k0 + 1));
                            assert(doc_render(items.skip(k0)) == item_render(items[k0])
                                + doc_render(items.skip(k0 + 1)));
                            lemma_step_code(items[k0], doc_render(items.skip(k0 + 1)), doc@, pos0);
                            assert(false);
                        }
                    }
                }
                return Ok(records);
            },
        };
        pos = after1;
        let (tag, rest, _line1) = head;
        if !eq_bytes(tag.as_slice(), t_marker_code()) {
            proof {
                assert forall|items: Seq<DocItem>|
                        (doc_wf(items) && doc@ == #[trigger] doc_render(items)) implies false by {
                        if k0 == items.len() {
                            assert(items.skip(k0) =~= Seq::<DocItem>::empty());
                            assert(doc@.skip(pos0) =~= Seq::<u8>::empty());
                            assert(false);
                        }
                        assert(item_wf(items[k0]));
                        assert(items.skip(k0)[0] == items[k0]);
                        assert(items.skip(k0).skip(1) =~= items.skip(k0 + 1));
                        assert(doc_render(items.skip(k0)) == item_render(items[k0]) + doc_render(
                            items.skip(k0 + 1),
                        ));
                        lemma_step_code(items[k0], doc_render(items.skip(k0 + 1)), doc@, pos0);
                    }
            }
            return Err(BuildError::Malformed);
        }
        let cidx = match find_sub(rest.as_slice(), t_p_close()) {
            Option::Some(i) => i,
            Option::None => {
                proof {
                    assert forall|items: Seq<DocItem>|
                        (doc_wf(items) && doc@ == #[trigger] doc_render(items)) implies false by {
                        if k0 == items.len() {
                            assert(items.skip(k0) =~= Seq::<DocItem>::empty());
                            assert(doc@.skip(pos0) =~= Seq::<u8>::empty());
                            assert(false);
                        }
                        assert(item_wf(items[k0]));
                        assert(items.skip(k0)[0] == items[k0]);
                        assert(items.skip(k0).skip(1) =~= items.skip(k0 + 1));
                        assert(doc_render(items.skip(k0)) == item_render(items[k0]) + doc_render(
                            items.skip(k0 + 1),
                        ));
                        lemma_step_code(items[k0], doc_render(items.skip(k0 + 1)), doc@, pos0);
                        assert(rest@ == items[k0].code + n_p_close());
                        assert(rest@.subrange(
                            items[k0].code.len() as int,
                            items[k0].code.len() + 4 as int,
                        ) == n_p_close());
                        assert forall|k: int| 0 <= k < items[k0].code.len() implies #[trigger] rest@.subrange(
                            k,
                            k + 4,
                        ) != n_p_close() by {
                            assert(rest@.subrange(k, k + 4) == (items[k0].code
                                + n_p_close()).subrange(k, k + 4));
                        }
                    }
                }
                return Err(BuildError::Malformed);
            },
        };
        if cidx == 0 {
            proof {
                assert forall|items: Seq<DocItem>|
                        (doc_wf(items) && doc@ == #[trigger] doc_render(items)) implies false by {
                        if k0 == items.len() {
                            assert(items.skip(k0) =~= Seq::<DocItem>::empty());
                            assert(doc@.skip(pos0) =~= Seq::<u8>::empty());
                            assert(false);
                        }
                        assert(item_wf(items[k0]));
                        assert(items.skip(k0)[0] == items[k0]);
                        assert(items.skip(k0).skip(1) =~= items.skip(k0 + 1));
                        assert(doc_render(items.skip(k0)) == item_render(items[k0]) + doc_render(
                            items.skip(k0 + 1),
                        ));
                        lemma_step_code(items[k0], doc_render(items.skip(k0 + 1)), doc@, pos0);
                        assert(rest@ == items[k0].code + n_p_close());
                        assert(rest@.subrange(
                            items[k0].code.len() as int,
                            items[k0].code.len() + 4 as int,
                        ) == n_p_close());
                        assert forall|k: int| 0 <= k < items[k0].code.len() implies #[trigger] rest@.subrange(
                            k,
                            k + 4,
                        ) != n_p_close() by {
                            assert(rest@.subrange(k, k + 4) == (items[k0].code
                                + n_p_close()).subrange(k, k + 4));
                        }
                    }
            }
            return Err(BuildError::Malformed);
        }
        let code = bytes_to_vec(slice_range(rest.as_slice(), 0, cidx));

        let (second, after2) = next_tagged(doc, pos);
        let snd = match second {
            Option::Some(x) => x,
            Option::None => {
                proof {
                    assert forall|items: Seq<DocItem>|
                        (doc_wf(items) && doc@ == #[trigger] doc_render(items)) implies false by {
                        if k0 == items.len() {
                            assert(items.skip(k0) =~= Seq::<DocItem>::empty());
                            assert(doc@.skip(pos0) =~= Seq::<u8>::empty());
                            assert(false);
                        }
                        assert(item_wf(items[k0]));
                        assert(items.skip(k0)[0] == items[k0]);
                        assert(items.skip(k0).skip(1) =~= items.skip(k0 + 1));
                        assert(doc_render(items.skip(k0)) == item_render(items[k0]) + doc_render(
                            items.skip(k0 + 1),
                        ));
                        lemma_step_code(items[k0], doc_render(items.skip(k0 + 1)), doc@, pos0);
                        lemma_step_desc(items[k0], doc_render(items.skip(k0 + 1)), doc@, pos0);
                    }
                }
                return Err(BuildError::Truncated);
            },
        };
        pos = after2;
        let mut description: Option<Vec<u8>> = None;
        let (tag2, rest2, line2) = snd;
        let field3: (Vec<u8>, Vec<u8>, Vec<u8>);
        let has_desc = eq_bytes(tag2.as_slice(), t_marker_desc());
        if has_desc {
            let (g, after3) = gather_field(doc, pos, rest2.as_slice(), true);
            let d = match g {
                Result::Ok(d) => d,
                Result::Err(e) => {
                    proof {
                        assert forall|items: Seq<DocItem>|
                        (doc_wf(items) && doc@ == #[trigger] doc_render(items)) implies false by {
                        if k0 == items.len() {
                            assert(items.skip(k0) =~= Seq::<DocItem>::empty());
                            assert(doc@.skip(pos0) =~= Seq::<u8>::empty());
                            assert(false);
                        }
                        assert(item_wf(items[k0]));
                        assert(items.skip(k0)[0] == items[k0]);
                        assert(items.skip(k0).skip(1) =~= items.skip(k0 + 1));
                        assert(doc_render(items.skip(k0)) == item_render(items[k0]) + doc_render(
                            items.skip(k0 + 1),
                        ));
                        lemma_step_code(items[k0], doc_render(items.skip(k0 + 1)), doc@, pos0);
                        lemma_step_desc(items[k0], doc_render(items.skip(k0 + 1)), doc@, pos0);
                    }
                    }
                    return Err(e);
                },
            };
            pos = after3;
            description = Some(d);
            let (third, after4) = next_tagged(doc, pos);
            let x = match third {
                Option::Some(x) => x,
                Option::None => {
                    proof {
                        assert forall|items: Seq<DocItem>|
                        (doc_wf(items) && doc@ == #[trigger] doc_render(items)) implies false by {
                        if k0 == items.len() {
                            assert(items.skip(k0) =~= Seq::<DocItem>::empty());
                            assert(doc@.skip(pos0) =~= Seq::<u8>::empty());
                            assert(false);
                        }
                        assert(item_wf(items[k0]));
                        assert(items.skip(k0)[0] == items[k0]);
                        assert(items.skip(k0).skip(1) =~= items.skip(k0 + 1));
                        assert(doc_render(items.skip(k0)) == item_render(items[k0]) + doc_render(
                            items.skip(k0 + 1),
                        ));
                        lemma_step_code(items[k0], doc_render(items.skip(k0 + 1)), doc@, pos0);
                        lemma_step_desc(items[k0], doc_render(items.skip(k0 + 1)), doc@, pos0);
                        lemma_step_status(items[k0], doc_render(items.skip(k0 + 1)), doc@, pos0);
                    }
                    }
                    return Err(BuildError::Truncated);
                },
            };
            pos = after4;
            field3 = x;
        } else {
            proof {
                assert forall|items: Seq<DocItem>|
                        (doc_wf(items) && doc@ == #[trigger] doc_render(items)) implies false by {
                        if k0 == items.len() {
                            assert(items.skip(k0) =~= Seq::<DocItem>::empty());
                            assert(doc@.skip(pos0) =~= Seq::<u8>::empty());
                            assert(false);
                        }
                        assert(item_wf(items[k0]));
                        assert(items.skip(k0)[0] == items[k0]);
                        assert(items.skip(k0).skip(1) =~= items.skip(k0 + 1));
                        assert(doc_render(items.skip(k0)) == item_render(items[k0]) + doc_render(
                            items.skip(k0 + 1),
                        ));
                        lemma_step_code(items[k0], doc_render(items.skip(k0 + 1)), doc@, pos0);
                        lemma_step_desc(items[k0], doc_render(items.skip(k0 + 1)), doc@, pos0);
                    }
            }
            field3 = (tag2, rest2, line2);
        }
        let (tag3, rest3, line3) = field3;
        let status: Option<Vec<u8>>;
        if starts_with_at(line3.as_slice(), 0, t_na_status_line()) {
            status = None;
        } else if starts_with_at(line3.as_slice(), 0, t_conflict_line()) {
            status = Some(bytes_to_vec(t_conflict_status()));
        } else if eq_bytes(tag3.as_slice(), t_marker_status()) {
            let (g, after5) = gather_field(doc, pos, rest3.as_slice(), false);
            let st = match g {
                Result::Ok(s) => s,
                Result::Err(e) => {
                    proof {
                        assert forall|items: Seq<DocItem>|
                        (doc_wf(items) && doc@ == #[trigger] doc_render(items)) implies false by {
                        if k0 == items.len() {
                            assert(items.skip(k0) =~= Seq::<DocItem>::empty());
                            assert(doc@.skip(pos0) =~= Seq::<u8>::empty());
                            assert(false);
                        }
                        assert(item_wf(items[k0]));
                        assert(items.skip(k0)[0] == items[k0]);
                        assert(items.skip(k0).skip(1) =~= items.skip(k0 + 1));
                        assert(doc_render(items.skip(k0)) == item_render(items[k0]) + doc_render(
                            items.skip(k0 + 1),
                        ));
                        lemma_step_code(items[k0], doc_render(items.skip(k0 + 1)), doc@, pos0);
                        lemma_step_desc(items[k0], doc_render(items.skip(k0 + 1)), doc@, pos0);
                        lemma_step_status(items[k0], doc_render(items.skip(k0 + 1)), doc@, pos0);
                    }
                    }
                    return Err(e);
                },
            };
            pos = after5;
            status = Some(st);
        } else {
            proof {
                assert forall|items: Seq<DocItem>|
                        (doc_wf(items) && doc@ == #[trigger] doc_render(items)) implies false by {
                        if k0 == items.len() {
                            assert(items.skip(k0) =~= Seq::<DocItem>::empty());
                            assert(doc@.skip(pos0) =~= Seq::<u8>::empty());
                            assert(false);
                        }
                        assert(item_wf(items[k0]));
                        assert(items.skip(k0)[0] == items[k0]);
                        assert(items.skip(k0).skip(1) =~= items.skip(k0 + 1));
                        assert(doc_render(items.skip(k0)) == item_render(items[k0]) + doc_render(
                            items.skip(k0 + 1),
                        ));
                        lemma_step_code(items[k0], doc_render(items.skip(k0 + 1)), doc@, pos0);
                        lemma_step_desc(items[k0], doc_render(items.skip(k0 + 1)), doc@, pos0);
                        lemma_step_status(items[k0], doc_render(items.skip(k0 + 1)), doc@, pos0);
                    }
            }
            return Err(BuildError::Malformed);
        }
        let (_trail, after6) = next_tagged(doc, pos);
        pos = after6;
        records.push(ErrorDocRecord { code, description, status });
        proof {
            assert forall|items: Seq<DocItem>|
                (doc_wf(items) && doc@ == #[trigger] doc_render(items)) implies {
                &&& records@.len() <= items.len()
                &&& (forall|t: int|
                    0 <= t < records@.len() ==> record_matches_item(
                        #[trigger] records@[t],
                        items[t],
                    ))
                &&& doc@.skip(pos as int) == doc_render(items.skip(records@.len() as int))
            } by {
                if k0 == items.len() {
                    assert(items.skip(k0) =~= Seq::<DocItem>::empty());
                    assert(doc@.skip(pos0) =~= Seq::<u8>::empty());
                    assert(false);
                }
                assert(item_wf(items[k0]));
                assert(items.skip(k0)[0] == items[k0]);
                assert(items.skip(k0).skip(1) =~= items.skip(k0 + 1));
                assert(doc_render(items.skip(k0)) == item_render(items[k0]) + doc_render(
                    items.skip(k0 + 1),
                ));
                lemma_step_code(items[k0], doc_render(items.skip(k0 + 1)), doc@, pos0);
                        lemma_step_desc(items[k0], doc_render(items.skip(k0 + 1)), doc@, pos0);
                        lemma_step_status(items[k0], doc_render(items.skip(k0 + 1)), doc@, pos0);
                        lemma_step_trailer(items[k0], doc_render(items.skip(k0 + 1)), doc@, pos0);
                assert(rest@ == items[k0].code + n_p_close());
                assert(rest@.subrange(
                    items[k0].code.len() as int,
                    items[k0].code.len() + 4 as int,
                ) == n_p_close());
                assert forall|k: int| 0 <= k < items[k0].code.len() implies #[trigger] rest@.subrange(
                    k,
                    k + 4,
                ) != n_p_close() by {
                    assert(rest@.subrange(k, k + 4) == (items[k0].code
                        + n_p_close()).subrange(k, k + 4));
                }
                assert(records@[k0].code@ == items[k0].code);
                assert(opt_view(records@[k0].description) == Option::Some(items[k0].description));
                match items[k0].status {
                    DocStatus::Written(txt) => {
                        assert(opt_view(records@[k0].status) == Option::Some(txt));
                    },
                    DocStatus::NotAvailable => {
                        assert(opt_view(records@[k0].status) is None);
                    },
                    DocStatus::ConflictLabeled => {
                        assert(opt_view(records@[k0].status) == Option::Some(n_conflict_status()));
                    },
                }
                assert forall|t: int| 0 <= t < records@.len() implies record_matches_item(
                    #[trigger] records@[t],
                    items[t],
                ) by {
                    if t < k0 {
                        assert(records@[t] == records@.subrange(0, k0)[t]);
                    }
                }
                assert(doc@.skip(pos as int) == doc_render(items.skip(records@.len() as int)));
            }
        }
    }
}

/// Whether a documented code appears among the triplets.
pub open spec fn item_code_present(items: Seq<DocItem>, c: Seq<u8>) -> bool {
    exists|i: int| 0 <= i < items.len() && (#[trigger] items[i]).code == c
}

/// The collapse invariant over the documentation itself: every repetition of
/// a code carries the identical status, a repeated code carries some status,
/// and every written status is well-formed status text.
pub open spec fn items_consistent(items: Seq<DocItem>) -> bool {
    &&& forall|i: int, j: int|
        0 <= i < items.len() && 0 <= j < items.len() && (#[trigger] items[i]).code == (
        #[trigger] items[j]).code ==> status_of_item(items[i].status) == status_of_item(
            items[j].status,
        )
    &&& forall|i: int, j: int|
        0 <= i < j < items.len() && (#[trigger] items[i]).code == (#[trigger] items[j]).code
            ==> status_of_item(items[i].status) is Some
    &&& forall|i: int|
        0 <= i < items.len() ==> (match status_of_item((#[trigger] items[i]).status) {
            Option::Some(t) => status_text_valid(t),
            Option::None => true,
        })
}

/// Build the error table from the service documentation text: parse the
/// Code / Description / HTTP Status Code listing, collapse repeated codes
/// after verifying their statuses agree, and apply the fixed patch list.
///
/// On a canonically shaped, consistent documentation block the build
/// succeeds, and the table holds exactly the documented codes plus the patch
/// code, each documented code carrying its documented status — the written
/// text, none for the `N/A` sentinel, `409 Conflict` for the mislabelled
/// form. No documented code is silently dropped.
#[verifier::rlimit(100)]
pub fn collect_errors(doc: &[u8]) -> (r: Result<ErrorTable, BuildError>)
    ensures
        r matches Result::Ok(t) ==> t.wf() && (match find_spec(t.entries@, n_repl_code()) {
            Option::Some(e) => e.status == Option::Some(404u16),
            Option::None => false,
        }),
        forall|items: Seq<DocItem>|
            (doc_wf(items) && doc@ == #[trigger] doc_render(items) && items_consistent(items))
                ==> (r matches Result::Ok(t) && (forall|c: Seq<u8>|
                #[trigger] t.contains_code(c) <==> (item_code_present(items, c) || c
                    == n_repl_code())) && (forall|i: int|
                0 <= i < items.len() && (#[trigger] items[i]).code != n_repl_code() ==> (
                match find_spec(t.entries@, items[i].code) {
                    Option::Some(e) => opt_view(e.status_text) == status_of_item(items[i].status),
                    Option::None => false,
                }))),
{
    let records = match parse_error_doc(doc) {
        Result::Ok(r) => r,
        Result::Err(e) => {
            proof {
                assert forall|items: Seq<DocItem>|
                    (doc_wf(items) && doc@ == #[trigger] doc_render(items) && items_consistent(
                        items,
                    )) implies false by {
                }
            }
            return Err(e);
        },
    };
    let ghost shaped = exists|items: Seq<DocItem>|
        doc_wf(items) && doc@ == #[trigger] doc_render(items) && items_consistent(items);
    proof {
        if shaped {
            let items = choose|items: Seq<DocItem>|
                doc_wf(items) && doc@ == #[trigger] doc_render(items) && items_consistent(items);
            assert(records_consistent(records@)) by {
                assert forall|i: int, j: int|
                    0 <= i < records@.len() && 0 <= j < records@.len() && (
                #[trigger] records@[i]).code@ == (#[trigger] records@[j]).code@ implies opt_view(
                    records@[i].status,
                ) == opt_view(records@[j].status) by {
                    assert(record_matches_item(records@[i], items[i]));
                    assert(record_matches_item(records@[j], items[j]));
                }
                assert forall|i: int, j: int|
                    0 <= i < j < records@.len() && (#[trigger] records@[i]).code@ == (
                #[trigger] records@[j]).code@ implies records@[i].status is Some by {
                    assert(record_matches_item(records@[i], items[i]));
                    assert(record_matches_item(records@[j], items[j]));
                }
                assert forall|i: int| 0 <= i < records@.len() implies (match (
                #[trigger] records@[i]).status {
                    Option::Some(t) => status_text_valid(t@),
                    Option::None => true,
                }) by {
                    assert(record_matches_item(records@[i], items[i]));
                    match records@[i].status {
                        Option::Some(t) => {
                            assert(opt_view(records@[i].status) == Option::Some(t@));
                        },
                        Option::None => {},
                    }
                }
            }
        }
    }
    let mut table = match build_table(&records) {
        Result::Ok(t) => t,
        Result::Err(e) => {
            proof {
                assert forall|items: Seq<DocItem>|
                    (doc_wf(items) && doc@ == #[trigger] doc_render(items) && items_consistent(
                        items,
                    )) implies false by {
                }
            }
            return Err(e);
        },
    };
    let ghost pre = table;
    patch_extra_errors(&mut table);
    proof {
        assert forall|items: Seq<DocItem>|
            (doc_wf(items) && doc@ == #[trigger] doc_render(items) && items_consistent(
                items,
            )) implies ((forall|c: Seq<u8>|
            #[trigger] table.contains_code(c) <==> (item_code_present(items, c) || c
                == n_repl_code())) && (forall|i: int|
            0 <= i < items.len() && (#[trigger] items[i]).code != n_repl_code() ==> (
            match find_spec(table.entries@, items[i].code) {
                Option::Some(e) => opt_view(e.status_text) == status_of_item(items[i].status),
                Option::None => false,
            }))) by {
            assert forall|c: Seq<u8>| #[trigger] table.contains_code(c) <==> (item_code_present(
                items,
                c,
            ) || c == n_repl_code()) by {
                if c == n_repl_code() {
                    assert(table.contains_code(c));
                } else {
                    assert(find_spec(table.entries@, c) == find_spec(pre.entries@, c));
                    if pre.contains_code(c) {
                        assert(code_in_records(records@, c));
                        let i = choose|i: int|
                            0 <= i < records@.len() && (#[trigger] records@[i]).code@ == c;
                        assert(record_matches_item(records@[i], items[i]));
                        assert(items[i].code == c);
                    }
                    if item_code_present(items, c) {
                        let i = choose|i: int|
                            0 <= i < items.len() && (#[trigger] items[i]).code == c;
                        assert(record_matches_item(records@[i], items[i]));
                        assert(records@[i].code@ == c);
                        assert(code_in_records(records@, c));
                    }
                }
            }
            assert forall|i: int|
                0 <= i < items.len() && (#[trigger] items[i]).code != n_repl_code() implies (
            match find_spec(table.entries@, items[i].code) {
                Option::Some(e) => opt_view(e.status_text) == status_of_item(items[i].status),
                Option::None => false,
            }) by {
                assert(record_matches_item(records@[i], items[i]));
                assert(records@[i].code@ == items[i].code);
                assert(find_spec(table.entries@, items[i].code) == find_spec(
                    pre.entries@,
                    items[i].code,
                ));
            }
        }
    }
    Ok(table)
}

} // verus!
