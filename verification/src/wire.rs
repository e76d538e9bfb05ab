//! Reading the driver's events from the lines of its output.
//!
//! An event is one line, its fields set apart by single tabs; the last field
//! runs to the end of the line and may hold tabs itself:
//!
//! ```text
//! artifact    PACKAGE  KIND  TRIPLE  PATH
//! script      KEY  VALUE
//! diagnostic  SEVERITY  MESSAGE
//! finished    ok|failed
//! ```
//!
//! `KIND` is written as in a manifest, `SEVERITY` is `note`, `warning` or
//! `error`. A line of any other shape is no event and is passed over.

use vstd::prelude::*;
use vstd::string::*;
use crate::driver::{DriverEvent, EventView, RunLog, Severity};
use crate::reader::{kind_named, kind_word, parse_kind};
use crate::scan::{column_of, lemma_pieces, pieces, split};
use crate::text::{same_text, texts};

verus! {

/// The severity that a word names, if it names one.
pub open spec fn severity_named(word: Seq<char>) -> Option<Severity> {
    if word == "note"@ {
        Some(Severity::Note)
    } else if word == "warning"@ {
        Some(Severity::Warning)
    } else if word == "error"@ {
        Some(Severity::Error)
    } else {
        None
    }
}

/// The line from the start of its field `k` to its end.
pub open spec fn rest_from(line: Seq<char>, fields: Seq<Seq<char>>, k: int) -> Seq<char> {
    line.skip(column_of(fields, k) - 1)
}

/// The event that a line holds, if it holds one.
pub open spec fn event_of(line: Seq<char>) -> Option<EventView> {
    let f = pieces(line, '\t');
    if f[0] == "artifact"@ {
        if f.len() >= 5 {
            match kind_named(f[2]) {
                Some(kind) => Some(
                    EventView::CompilerArtifact {
                        package: f[1],
                        kind,
                        path: rest_from(line, f, 4),
                        triple: f[3],
                    },
                ),
                None => None,
            }
        } else {
            None
        }
    } else if f[0] == "script"@ {
        if f.len() >= 3 {
            Some(EventView::BuildScriptOutput { key: f[1], value: rest_from(line, f, 2) })
        } else {
            None
        }
    } else if f[0] == "diagnostic"@ {
        if f.len() >= 3 {
            match severity_named(f[1]) {
                Some(severity) => Some(
                    EventView::Diagnostic { severity, message: rest_from(line, f, 2) },
                ),
                None => None,
            }
        } else {
            None
        }
    } else if f[0] == "finished"@ {
        if f.len() == 2 && f[1] == "ok"@ {
            Some(EventView::BuildFinished { success: true })
        } else if f.len() == 2 && f[1] == "failed"@ {
            Some(EventView::BuildFinished { success: false })
        } else {
            None
        }
    } else {
        None
    }
}

/// The form of an optional event.
pub open spec fn event_view(e: Option<DriverEvent>) -> Option<EventView> {
    match e {
        Some(inner) => Some(inner@),
        None => None,
    }
}

proof fn lemma_column_shift(a: Seq<char>, r: Seq<Seq<char>>, k: int)
    requires
        1 <= k <= r.len() + 1,
    ensures
        column_of(seq![a] + r, k) == a.len() + 1 + column_of(r, k - 1),
    decreases k,
{
    let all = seq![a] + r;
    if k == 1 {
        assert(all[0] == a);
        assert(column_of(all, 0) == 1);
        assert(column_of(r, 0) == 1);
    } else {
        lemma_column_shift(a, r, k - 1);
        assert(all[k - 1] == r[k - 2]);
    }
}

/// Every field of a text starts within the text or right at its end.
pub proof fn lemma_field_start(s: Seq<char>, d: char, k: int)
    requires
        0 <= k < pieces(s, d).len(),
    ensures
        1 <= column_of(pieces(s, d), k) <= s.len() + 1,
    decreases s.len(),
{
    let i = crate::scan::first_at(s, 0, d);
    crate::scan::lemma_first_at(s, 0, d);
    if 0 <= i < s.len() && k >= 1 {
        let rest = pieces(s.skip(i + 1), d);
        lemma_column_shift(s.take(i), rest, k);
        lemma_field_start(s.skip(i + 1), d, k - 1);
    }
}

/// The severity that a word names, if it names one.
pub fn parse_severity(word: &str) -> (r: Option<Severity>)
    ensures
        r == severity_named(word@),
{
    if same_text(word, "note") {
        Some(Severity::Note)
    } else if same_text(word, "warning") {
        Some(Severity::Warning)
    } else if same_text(word, "error") {
        Some(Severity::Error)
    } else {
        None
    }
}

fn rest(line: &str, fields: &Vec<String>, k: usize) -> (r: String)
    requires
        texts(fields@) == pieces(line@, '\t'),
        k < fields.len(),
    ensures
        r@ == rest_from(line@, texts(fields@), k as int),
{
    let n = line.unicode_len();
    let mut start: usize = 0;
    let mut j: usize = 0;
    while j < k
        invariant
            j <= k < fields.len(),
            n == line@.len(),
            texts(fields@) == pieces(line@, '\t'),
            start == column_of(texts(fields@), j as int) - 1,
        decreases k - j,
    {
        proof {
            lemma_field_start(line@, '\t', j + 1);
            assert(texts(fields@)[j as int] == fields[j as int]@);
        }
        start = start + fields[j].as_str().unicode_len() + 1;
        j += 1;
    }
    proof {
        lemma_field_start(line@, '\t', k as int);
    }
    let tail = line.substring_char(start, n);
    assert(line@.subrange(start as int, n as int) =~= line@.skip(start as int));
    String::from_str(tail)
}

/// Reads the event that a line of the driver's output holds, if it holds
/// one.
pub fn read_event(line: &str) -> (r: Option<DriverEvent>)
    ensures
        event_view(r) == event_of(line@),
{
    let fields = split(line, '\t');
    let ghost f = texts(fields@);
    proof {
        lemma_pieces(line@, '\t');
    }
    assert(f[0] == fields[0]@);
    let word = fields[0].as_str();
    if same_text(word, "artifact") {
        if fields.len() < 5 {
            return None;
        }
        assert(f[1] == fields[1]@);
        assert(f[2] == fields[2]@);
        assert(f[3] == fields[3]@);
        match parse_kind(fields[2].as_str()) {
            Some(kind) => Some(
                DriverEvent::CompilerArtifact {
                    package: fields[1].clone(),
                    kind,
                    path: rest(line, &fields, 4),
                    triple: fields[3].clone(),
                },
            ),
            None => None,
        }
    } else if same_text(word, "script") {
        if fields.len() < 3 {
            return None;
        }
        assert(f[1] == fields[1]@);
        Some(DriverEvent::BuildScriptOutput { key: fields[1].clone(), value: rest(line, &fields, 2) })
    } else if same_text(word, "diagnostic") {
        if fields.len() < 3 {
            return None;
        }
        assert(f[1] == fields[1]@);
        match parse_severity(fields[1].as_str()) {
            Some(severity) => Some(
                DriverEvent::Diagnostic { severity, message: rest(line, &fields, 2) },
            ),
            None => None,
        }
    } else if same_text(word, "finished") {
        if fields.len() != 2 {
            return None;
        }
        assert(f[1] == fields[1]@);
        if same_text(fields[1].as_str(), "ok") {
            Some(DriverEvent::BuildFinished { success: true })
        } else if same_text(fields[1].as_str(), "failed") {
            Some(DriverEvent::BuildFinished { success: false })
        } else {
            None
        }
    } else {
        None
    }
}

/// Records the event that a line holds, if it holds one. Returns whether it
/// did.
pub fn record_line(log: &mut RunLog, line: &str) -> (recorded: bool)
    ensures
        recorded == event_of(line@) is Some,
        final(log)@ == match event_of(line@) {
            Some(e) => old(log)@.push(e),
            None => old(log)@,
        },
{
    match read_event(line) {
        Some(e) => {
            log.record(e);
            true
        },
        None => false,
    }
}

/// The word for a severity.
pub open spec fn severity_word(severity: Severity) -> Seq<char> {
    match severity {
        Severity::Note => "note"@,
        Severity::Warning => "warning"@,
        Severity::Error => "error"@,
    }
}

/// A field, a tab, and what follows.
pub open spec fn then(field: Seq<char>, rest: Seq<char>) -> Seq<char> {
    field + seq!['\t'] + rest
}

/// The line that an event is written as.
pub open spec fn written_event(e: EventView) -> Seq<char> {
    match e {
        EventView::CompilerArtifact { package, kind, path, triple } => then(
            "artifact"@,
            then(package, then(kind_word(kind), then(triple, path))),
        ),
        EventView::BuildScriptOutput { key, value } => then("script"@, then(key, value)),
        EventView::Diagnostic { severity, message } => then(
            "diagnostic"@,
            then(severity_word(severity), message),
        ),
        EventView::BuildFinished { success } => then(
            "finished"@,
            if success {
                "ok"@
            } else {
                "failed"@
            },
        ),
    }
}

/// An event whose inner fields hold no tab. Its last field may hold
/// anything.
pub open spec fn can_write_event(e: EventView) -> bool {
    match e {
        EventView::CompilerArtifact { package, triple, .. } => !package.contains('\t')
            && !triple.contains('\t'),
        EventView::BuildScriptOutput { key, .. } => !key.contains('\t'),
        _ => true,
    }
}

/// The fields of a field followed by a rest are that field and the fields
/// of the rest, and every later field runs to the end as it does in the
/// rest.
proof fn lemma_then(field: Seq<char>, rest: Seq<char>, k: int)
    requires
        !field.contains('\t'),
        0 <= k < pieces(rest, '\t').len(),
    ensures
        pieces(then(field, rest), '\t') == seq![field] + pieces(rest, '\t'),
        rest_from(then(field, rest), pieces(then(field, rest), '\t'), k + 1) == rest_from(
            rest,
            pieces(rest, '\t'),
            k,
        ),
{
    let line = then(field, rest);
    let i = field.len() as int;
    assert forall|j: int| 0 <= j < i implies #[trigger] line[j] != '\t' by {
        assert(line[j] == field[j]);
        assert(!field.contains('\t'));
    }
    assert(line[i] == '\t');
    crate::scan::lemma_first_is(line, 0, '\t', i);
    assert(line.take(i) =~= field);
    assert(line.skip(i + 1) =~= rest);
    let inner = pieces(rest, '\t');
    lemma_column_shift(field, inner, k + 1);
    lemma_field_start(rest, '\t', k);
    assert(line.skip(i + 1 + column_of(inner, k) - 1) =~= rest.skip(column_of(inner, k) - 1));
}

/// The words of the lines, and that they hold no tab and differ.
proof fn lemma_event_words()
    ensures
        !"artifact"@.contains('\t'),
        !"script"@.contains('\t'),
        !"diagnostic"@.contains('\t'),
        !"finished"@.contains('\t'),
        !"ok"@.contains('\t'),
        !"failed"@.contains('\t'),
        !"note"@.contains('\t'),
        !"warning"@.contains('\t'),
        !"error"@.contains('\t'),
        !"static-library"@.contains('\t'),
        !"shared-library"@.contains('\t'),
        !"executable"@.contains('\t'),
        !"object-only"@.contains('\t'),
        "artifact"@ != "script"@,
        "artifact"@ != "diagnostic"@,
        "artifact"@ != "finished"@,
        "script"@ != "diagnostic"@,
        "script"@ != "finished"@,
        "diagnostic"@ != "finished"@,
        "ok"@ != "failed"@,
        "note"@ != "warning"@,
        "note"@ != "error"@,
        "warning"@ != "error"@,
        "static-library"@ != "shared-library"@,
        "static-library"@ != "executable"@,
        "static-library"@ != "object-only"@,
        "shared-library"@ != "executable"@,
        "shared-library"@ != "object-only"@,
        "executable"@ != "object-only"@,
{
    reveal_strlit("artifact");
    reveal_strlit("script");
    reveal_strlit("diagnostic");
    reveal_strlit("finished");
    reveal_strlit("ok");
    reveal_strlit("failed");
    reveal_strlit("note");
    reveal_strlit("warning");
    reveal_strlit("error");
    reveal_strlit("static-library");
    reveal_strlit("shared-library");
    reveal_strlit("executable");
    reveal_strlit("object-only");
    assert("artifact"@[0] == 'a');
    assert("finished"@[0] == 'f');
    assert("static-library"@[1] == 't');
    assert("shared-library"@[1] == 'h');
    assert("script"@.len() == 6);
    assert("diagnostic"@.len() == 10);
    assert("ok"@.len() == 2);
    assert("failed"@.len() == 6);
    assert("note"@.len() == 4);
    assert("warning"@.len() == 7);
    assert("error"@.len() == 5);
    assert("executable"@.len() == 10);
    assert("object-only"@.len() == 11);
    assert("static-library"@.len() == 14);
}

/// An event is read back as it was written.
pub proof fn lemma_event_read_back(e: EventView)
    requires
        can_write_event(e),
    ensures
        event_of(written_event(e)) == Some(e),
{
    lemma_event_words();
    match e {
        EventView::CompilerArtifact { package, kind, path, triple } => {
            let l3 = then(triple, path);
            let l2 = then(kind_word(kind), l3);
            let l1 = then(package, l2);
            lemma_pieces(path, '\t');
            assert(rest_from(path, pieces(path, '\t'), 0) =~= path);
            lemma_then(triple, path, 0);
            lemma_then(kind_word(kind), l3, 1);
            lemma_then(package, l2, 2);
            lemma_then("artifact"@, l1, 3);
            let f = pieces(written_event(e), '\t');
            assert(f[0] == "artifact"@);
            assert(f[1] == package);
            assert(f[2] == kind_word(kind));
            assert(f[3] == triple);
        },
        EventView::BuildScriptOutput { key, value } => {
            lemma_pieces(value, '\t');
            assert(rest_from(value, pieces(value, '\t'), 0) =~= value);
            lemma_then(key, value, 0);
            lemma_then("script"@, then(key, value), 1);
            let f = pieces(written_event(e), '\t');
            assert(f[0] == "script"@);
            assert(f[1] == key);
        },
        EventView::Diagnostic { severity, message } => {
            lemma_pieces(message, '\t');
            assert(rest_from(message, pieces(message, '\t'), 0) =~= message);
            lemma_then(severity_word(severity), message, 0);
            lemma_then("diagnostic"@, then(severity_word(severity), message), 1);
            let f = pieces(written_event(e), '\t');
            assert(f[0] == "diagnostic"@);
            assert(f[1] == severity_word(severity));
        },
        EventView::BuildFinished { success } => {
            let word = if success {
                "ok"@
            } else {
                "failed"@
            };
            assert forall|j: int| 0 <= j < word.len() implies #[trigger] word[j] != '\t' by {
                assert(!word.contains('\t'));
            }
            crate::scan::lemma_first_is(word, 0, '\t', word.len() as int);
            assert(pieces(word, '\t') =~= seq![word]);
            lemma_then("finished"@, word, 0);
            let f = pieces(written_event(e), '\t');
            assert(f[0] == "finished"@);
            assert(f[1] == word);
            assert(f.len() == 2);
        },
    }
}

} // verus!
