//! Validation of data files against a schema: the checks before any file
//! is looked at, decoding a file as JSON or CBOR, and the report of each
//! file. The check of a decoded document against the schema is the
//! caller's.

use vstd::prelude::*;
use crate::text::{decimal, decimal_string, views};

verus! {

#[verifier::external_type_specification]
#[verifier::external_body]
pub struct ExJsonValue(serde_json::Value);

#[verifier::external_type_specification]
#[verifier::external_body]
pub struct ExCborValue(ciborium::Value);

/// The message when the schema has no rule to validate against.
pub open spec fn no_rules_message() -> Seq<char> {
    "schema defines no rules to validate against"@
}

/// The message when no data file is given.
pub open spec fn no_data_message() -> Seq<char> {
    "no data files given — pass --json FILE and/or --cbor FILE"@
}

/// Chooses the type to validate against: the one named, else the schema's
/// root rule. Refuses an empty choice, then a run without data files.
pub fn plan_validation(target_type: Option<&str>, root: &str, json_files: usize, cbor_files: usize) -> (r: Result<
    String,
    String,
>)
    ensures
        ({
            let chosen = match target_type {
                Some(t) => t@,
                None => root@,
            };
            if chosen.len() == 0 {
                r matches Err(m) && m@ == no_rules_message()
            } else if json_files == 0 && cbor_files == 0 {
                r matches Err(m) && m@ == no_data_message()
            } else {
                r matches Ok(t) && t@ == chosen
            }
        }),
{
    let chosen = match target_type {
        Some(t) => t,
        None => root,
    };
    if chosen.unicode_len() == 0 {
        return Err(String::from_str("schema defines no rules to validate against"));
    }
    if json_files == 0 && cbor_files == 0 {
        return Err(String::from_str("no data files given — pass --json FILE and/or --cbor FILE"));
    }
    Ok(String::from_str(chosen))
}

/// How a data file is encoded.
#[derive(Debug, Clone, Copy, PartialEq, Eq, Structural)]
pub enum DataKind {
    Json,
    Cbor,
}

/// A decoded data file.
pub enum Document {
    Json(serde_json::Value),
    Cbor(ciborium::Value),
}

/// What `serde_json::from_slice` makes of these bytes: the JSON value, or
/// the text of its error.
pub uninterp spec fn json_decoding(bytes: Seq<u8>) -> Result<serde_json::Value, Seq<char>>;

/// What `ciborium::from_reader` makes of these bytes: the CBOR value, or
/// the text of its error.
pub uninterp spec fn cbor_decoding(bytes: Seq<u8>) -> Result<ciborium::Value, Seq<char>>;

/// Calls `serde_json::from_slice` for a `serde_json::Value`. Claims that
/// the value, or the error's text, depends on the bytes alone; what the
/// value is for given bytes is not described.
#[verifier::external_body]
fn json_from_slice(bytes: &[u8]) -> (r: Result<serde_json::Value, String>)
    ensures
        match r {
            Ok(v) => json_decoding(bytes@) == Ok::<serde_json::Value, Seq<char>>(v),
            Err(m) => json_decoding(bytes@) == Err::<serde_json::Value, Seq<char>>(m@),
        },
{
    serde_json::from_slice::<serde_json::Value>(bytes).map_err(|e| e.to_string())
}

/// Calls `ciborium::from_reader` on the bytes for a `ciborium::Value`.
/// Claims that the value, or the error's text, depends on the bytes alone;
/// what the value is for given bytes is not described.
#[verifier::external_body]
fn cbor_from_reader(bytes: &[u8]) -> (r: Result<ciborium::Value, String>)
    ensures
        match r {
            Ok(v) => cbor_decoding(bytes@) == Ok::<ciborium::Value, Seq<char>>(v),
            Err(m) => cbor_decoding(bytes@) == Err::<ciborium::Value, Seq<char>>(m@),
        },
{
    ciborium::from_reader::<ciborium::Value, &[u8]>(bytes).map_err(|e| e.to_string())
}

/// Decodes a data file of the given kind, with the decoder of that kind:
/// the value it decodes, or its message.
pub fn decode_document(kind: DataKind, bytes: &[u8]) -> (r: Result<Document, String>)
    ensures
        kind == DataKind::Json ==> match r {
            Ok(d) => d is Json && json_decoding(bytes@) == Ok::<serde_json::Value, Seq<char>>(d->Json_0),
            Err(m) => json_decoding(bytes@) == Err::<serde_json::Value, Seq<char>>(m@),
        },
        kind == DataKind::Cbor ==> match r {
            Ok(d) => d is Cbor && cbor_decoding(bytes@) == Ok::<ciborium::Value, Seq<char>>(d->Cbor_0),
            Err(m) => cbor_decoding(bytes@) == Err::<ciborium::Value, Seq<char>>(m@),
        },
{
    match kind {
        DataKind::Json => match json_from_slice(bytes) {
            Ok(v) => Ok(Document::Json(v)),
            Err(m) => Err(m),
        },
        DataKind::Cbor => match cbor_from_reader(bytes) {
            Ok(v) => Ok(Document::Cbor(v)),
            Err(m) => Err(m),
        },
    }
}

/// What became of one data file.
pub enum CheckOutcome {
    /// The file could not be read; the system's message.
    ReadFailed(String),
    /// The file could not be decoded; the decoder's message.
    DecodeFailed(String),
    /// The document matches the type.
    Valid,
    /// The document does not match the type; one message per mismatch.
    Invalid(Vec<String>),
}

/// The report on one data file: whether it passed, and the lines for
/// standard output and for standard error.
pub struct FileReport {
    pub ok: bool,
    pub stdout: Vec<String>,
    pub stderr: Vec<String>,
}

/// Each mismatch message, indented by two spaces.
pub open spec fn indented(es: Seq<Seq<char>>) -> Seq<Seq<char>> {
    es.map_values(|e: Seq<char>| "  "@ + e)
}

/// Reports on the data file `path` checked against `target_type`: failures to
/// read or decode go to standard error, the verdict to standard output;
/// only a valid document passes.
pub fn report_file(path: &str, target_type: &str, outcome: &CheckOutcome) -> (r: FileReport)
    ensures
        r.ok == (outcome is Valid),
        match outcome {
            CheckOutcome::ReadFailed(e) => r.stdout@.len() == 0 && views(r.stderr@) == seq![
                path@ + ": I/O error: "@ + e@,
            ],
            CheckOutcome::DecodeFailed(e) => r.stdout@.len() == 0 && views(r.stderr@) == seq![
                path@ + ": decode error: "@ + e@,
            ],
            CheckOutcome::Valid => r.stderr@.len() == 0 && views(r.stdout@) == seq![
                path@ + ": OK ("@ + target_type@ + ")"@,
            ],
            CheckOutcome::Invalid(es) => r.stderr@.len() == 0 && views(r.stdout@) == seq![
                path@ + ": FAIL ("@ + target_type@ + ", "@ + decimal(es@.len()) + " error(s))"@,
            ] + indented(views(es@)),
        },
{
    let mut stdout: Vec<String> = Vec::new();
    let mut stderr: Vec<String> = Vec::new();
    let mut line = String::from_str(path);
    match outcome {
        CheckOutcome::ReadFailed(e) => {
            line.append(": I/O error: ");
            line.append(e.as_str());
            stderr.push(line);
            proof {
                assert(views(stderr@) =~= seq![path@ + ": I/O error: "@ + e@]);
            }
            FileReport { ok: false, stdout, stderr }
        },
        CheckOutcome::DecodeFailed(e) => {
            line.append(": decode error: ");
            line.append(e.as_str());
            stderr.push(line);
            proof {
                assert(views(stderr@) =~= seq![path@ + ": decode error: "@ + e@]);
            }
            FileReport { ok: false, stdout, stderr }
        },
        CheckOutcome::Valid => {
            line.append(": OK (");
            line.append(target_type);
            line.append(")");
            stdout.push(line);
            proof {
                assert(views(stdout@) =~= seq![path@ + ": OK ("@ + target_type@ + ")"@]);
            }
            FileReport { ok: true, stdout, stderr }
        },
        CheckOutcome::Invalid(es) => {
            line.append(": FAIL (");
            line.append(target_type);
            line.append(", ");
            let n = decimal_string(es.len());
            line.append(n.as_str());
            line.append(" error(s))");
            stdout.push(line);
            let ghost head = stdout@;
            let mut i: usize = 0;
            while i < es.len()
                invariant
                    i <= es.len(),
                    head.len() == 1,
                    views(stdout@) == views(head) + indented(views(es@).take(i as int)),
                decreases es.len() - i,
            {
                let mut l = String::from_str("  ");
                l.append(es[i].as_str());
                let ghost prev = stdout@;
                stdout.push(l);
                proof {
                    assert(views(stdout@) =~= views(prev).push(l@));
                    assert(indented(views(es@).take(i + 1)) =~= indented(views(es@).take(i as int)).push(
                        "  "@ + es@[i as int]@,
                    ));
                }
                i = i + 1;
            }
            proof {
                assert(views(es@).take(es.len() as int) =~= views(es@));
                assert(views(head) =~= seq![
                    path@ + ": FAIL ("@ + target_type@ + ", "@ + decimal(es@.len()) + " error(s))"@,
                ]);
            }
            FileReport { ok: false, stdout, stderr }
        },
    }
}

} // verus!
