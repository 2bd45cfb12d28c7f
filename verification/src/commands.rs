//! Parsing with combinators: `name,score` records into a map, `verb:key:value`
//! lines into commands, and the latency fields of successful GET requests in a
//! request log.
use vstd::prelude::*;
use crate::int_parse::{
    is_decimal_digit, lemma_parsed_chars, parse_i32, parse_u32, spec_parse_i32, spec_parse_u32,
};
use crate::str_map::StrMap;
use crate::text::{
    find_from, lemma_find_from, lemma_split_first, lemma_split_len, lemma_split_whole, lines,
    lines_of, split, split_char, split_once, split_once_char, starts_with, starts_with_str, str_eq,
    strip_prefix, strip_prefix_str, views,
};

verus! {

/// A command of the key-value command line.
#[derive(Debug, PartialEq, Clone)]
pub enum Command {
    /// Sets a key to a value (the `set` verb).
    Assign(String, i32),
    Add(String, i32),
    Del(String),
}

/// A command with its key as a char sequence.
pub enum CommandModel {
    Assign(Seq<char>, i32),
    Add(Seq<char>, i32),
    Del(Seq<char>),
}

impl View for Command {
    type V = CommandModel;

    open spec fn view(&self) -> CommandModel {
        match self {
            Command::Assign(k, v) => CommandModel::Assign(k@, *v),
            Command::Add(k, v) => CommandModel::Add(k@, *v),
            Command::Del(k) => CommandModel::Del(k@),
        }
    }
}

/// The commands that a sequence of commands denotes.
pub open spec fn command_models(v: Seq<Command>) -> Seq<CommandModel> {
    v.map_values(|c: Command| c@)
}

/// The `(name, score)` pair of a `name,score` record: a non-empty name before
/// the first comma and a `u32` after it.
pub open spec fn score_entry(line: Seq<char>) -> Option<(Seq<char>, u32)> {
    match split_once(line, ',') {
        Some((k, v)) => if k.len() == 0 {
            None
        } else {
            match spec_parse_u32(v) {
                Ok(n) => Some((k, n as u32)),
                Err(_) => None,
            }
        },
        None => None,
    }
}

/// The scores of the records: each valid record sets its name's score, a
/// later record of the same name replacing an earlier one; invalid records
/// are skipped.
pub open spec fn score_map(records: Seq<Seq<char>>) -> Map<Seq<char>, u32>
    decreases records.len(),
{
    if records.len() == 0 {
        Map::empty()
    } else {
        match score_entry(records.last()) {
            Some((k, n)) => score_map(records.drop_last()).insert(k, n),
            None => score_map(records.drop_last()),
        }
    }
}

/// The record is a valid record for the name `k`.
pub open spec fn scores_name(record: Seq<char>, k: Seq<char>) -> bool {
    score_entry(record) matches Some(e) && e.0 == k
}

/// A name has a score exactly when some valid record carries it, and its
/// score is the one in the last valid record for that name: a later record
/// replaces an earlier one, whatever the scores.
pub proof fn lemma_score_map_last_wins(records: Seq<Seq<char>>, k: Seq<char>)
    ensures
        score_map(records).contains_key(k) == exists|i: int|
            0 <= i < records.len() && #[trigger] scores_name(records[i], k),
        score_map(records).contains_key(k) ==> exists|i: int|
            0 <= i < records.len() && #[trigger] score_entry(records[i]) == Some(
                (k, score_map(records)[k]),
            ) && forall|j: int| i < j < records.len() ==> !#[trigger] scores_name(records[j], k),
    decreases records.len(),
{
    if records.len() > 0 {
        let rest = records.drop_last();
        let line = records.last();
        let last = records.len() - 1;
        lemma_score_map_last_wins(rest, k);
        assert(records[last] == line);
        assert forall|i: int| 0 <= i < rest.len() implies records[i] == rest[i] by {}
        if (exists|i: int| 0 <= i < rest.len() && #[trigger] scores_name(rest[i], k)) {
            let i = choose|i: int| 0 <= i < rest.len() && #[trigger] scores_name(rest[i], k);
            assert(scores_name(records[i], k));
        }
        if (exists|i: int| 0 <= i < records.len() && #[trigger] scores_name(records[i], k)) {
            let i = choose|i: int| 0 <= i < records.len() && #[trigger] scores_name(records[i], k);
            if i < rest.len() {
                assert(scores_name(rest[i], k));
            }
        }
        if scores_name(line, k) {
            assert(score_entry(records[last]) == Some((k, score_map(records)[k])));
        } else if score_map(records).contains_key(k) {
            assert(score_map(rest).contains_key(k));
            assert(score_map(records)[k] == score_map(rest)[k]);
            let i = choose|i: int|
                0 <= i < rest.len() && #[trigger] score_entry(rest[i]) == Some(
                    (k, score_map(rest)[k]),
                ) && forall|j: int| i < j < rest.len() ==> !#[trigger] scores_name(rest[j], k);
            assert(score_entry(records[i]) == Some((k, score_map(records)[k])));
            assert forall|j: int| i < j < records.len() implies !#[trigger] scores_name(
                records[j],
                k,
            ) by {
                if j < rest.len() {
                    assert(!scores_name(rest[j], k));
                }
            }
        }
    }
}

/// A `name,score` record with a non-empty name free of commas and a score
/// that reads as a `u32` scores that name with that number.
pub proof fn lemma_score_entry_of(k: Seq<char>, v: Seq<char>)
    requires
        k.len() > 0,
        !k.contains(','),
    ensures
        spec_parse_u32(v) matches Ok(n) ==> score_entry(k + ","@ + v) == Some((k, n as u32)),
        spec_parse_u32(v) is Err ==> score_entry(k + ","@ + v) is None,
{
    reveal_strlit(",");
    let s = k + ","@ + v;
    lemma_find_from(s, ',', 0);
    assert(s[k.len() as int] == ',');
    match find_from(s, ',', 0) {
        Some(j) => {
            if j < k.len() {
                assert(s[j] == k[j]);
                assert(k.contains(','));
            }
            assert(j == k.len());
        },
        None => {
            assert(false);
        },
    }
    assert(s.take(k.len() as int) =~= k);
    assert(s.skip(k.len() as int + 1) =~= v);
}

/// Parses `name,score` records into a map from name to score, skipping the
/// records without a comma, with an empty name or with a score that is not a `u32`.
pub fn parser_1(v: Vec<&str>) -> (scores: StrMap<u32>)
    ensures
        scores.wf(),
        scores@ == score_map(views(v@)),
{
    let mut scores: StrMap<u32> = StrMap::new();
    let mut i: usize = 0;
    while i < v.len()
        invariant
            i <= v@.len(),
            scores.wf(),
            scores@ == score_map(views(v@).take(i as int)),
        decreases v@.len() - i,
    {
        let line = v[i];
        assert(views(v@).take(i + 1).drop_last() =~= views(v@).take(i as int));
        assert(views(v@).take(i + 1).last() == line@);
        if let Some((k, val)) = split_once_char(line, ',') {
            if !k.is_empty() {
                if let Ok(n) = parse_u32(val) {
                    scores.insert(k.to_owned(), n);
                }
            }
        }
        i += 1;
    }
    assert(views(v@).take(v@.len() as int) =~= views(v@));
    scores
}

/// The command that the `:`-separated parts of a line denote:
/// `set:key:value` and `add:key:value` with a non-empty key and an `i32`
/// value, or `del:key` with a non-empty key.
pub open spec fn command_of_parts(parts: Seq<Seq<char>>) -> Option<CommandModel> {
    if parts.len() == 3 && (parts[0] == "set"@ || parts[0] == "add"@) && parts[1].len() > 0 {
        match spec_parse_i32(parts[2]) {
            Ok(n) => if parts[0] == "set"@ {
                Some(CommandModel::Assign(parts[1], n as i32))
            } else {
                Some(CommandModel::Add(parts[1], n as i32))
            },
            Err(_) => None,
        }
    } else if parts.len() == 2 && parts[0] == "del"@ && parts[1].len() > 0 {
        Some(CommandModel::Del(parts[1]))
    } else {
        None
    }
}

/// The command of one line.
pub open spec fn command_of_line(line: Seq<char>) -> Option<CommandModel> {
    command_of_parts(split(line, ':'))
}

/// The commands of the lines, in order, skipping the lines that denote none.
pub open spec fn commands_of(lines: Seq<Seq<char>>) -> Seq<CommandModel> {
    lines.filter_map(|l: Seq<char>| command_of_line(l))
}

/// A string that parses as an `i32` holds no `:`.
proof fn lemma_parsed_has_no_colon(v: Seq<char>)
    requires
        spec_parse_i32(v) is Ok,
    ensures
        !v.contains(':'),
{
    lemma_parsed_chars(v, true, i32::MIN as int, i32::MAX as int);
    assert forall|i: int| 0 <= i < v.len() implies v[i] != ':' by {
        assert(is_decimal_digit(v[i]) || v[i] == '+' || v[i] == '-');
    }
}

/// The pieces of `verb:k:v`, for a key `k` without `:`: the verb, the key,
/// and then the pieces of `v`.
proof fn lemma_three_part_line(verb: Seq<char>, k: Seq<char>, v: Seq<char>)
    requires
        !verb.contains(':'),
        !k.contains(':'),
    ensures
        split(verb.push(':') + (k.push(':') + v), ':') == seq![verb, k] + split(v, ':'),
{
    lemma_split_first(verb, k.push(':') + v, ':');
    lemma_split_first(k, v, ':');
    assert(seq![verb] + (seq![k] + split(v, ':')) =~= seq![verb, k] + split(v, ':'));
}

/// A command line says what it spells, for any key `k` that is not empty and
/// holds no `:`: `set:k:v` sets `k` to the `i32` that `v` reads as, `add:k:v`
/// adds that number to `k`, either is no command when `v` is not an `i32`,
/// and `del:k` deletes `k`.
pub proof fn lemma_command_lines(k: Seq<char>, v: Seq<char>)
    requires
        k.len() > 0,
        !k.contains(':'),
    ensures
        spec_parse_i32(v) matches Ok(n) ==> command_of_line("set:"@ + k + ":"@ + v) == Some(
            CommandModel::Assign(k, n as i32),
        ),
        spec_parse_i32(v) matches Ok(n) ==> command_of_line("add:"@ + k + ":"@ + v) == Some(
            CommandModel::Add(k, n as i32),
        ),
        spec_parse_i32(v) is Err ==> command_of_line("set:"@ + k + ":"@ + v) is None,
        spec_parse_i32(v) is Err ==> command_of_line("add:"@ + k + ":"@ + v) is None,
        command_of_line("del:"@ + k) == Some(CommandModel::Del(k)),
{
    reveal_strlit("set:");
    reveal_strlit("add:");
    reveal_strlit("del:");
    reveal_strlit(":");
    reveal_strlit("set");
    reveal_strlit("add");
    reveal_strlit("del");
    let set = "set"@;
    let add = "add"@;
    let del = "del"@;
    assert(!set.contains(':'));
    assert(!add.contains(':'));
    assert(!del.contains(':'));
    assert(set != add) by {
        assert(set[0] != add[0]);
    }
    assert("set:"@ + k + ":"@ + v =~= set.push(':') + (k.push(':') + v));
    assert("add:"@ + k + ":"@ + v =~= add.push(':') + (k.push(':') + v));
    lemma_three_part_line(set, k, v);
    lemma_three_part_line(add, k, v);
    lemma_split_len(v, ':');
    if !v.contains(':') {
        lemma_split_whole(v, ':');
        assert(seq![set, k] + seq![v] =~= seq![set, k, v]);
        assert(seq![add, k] + seq![v] =~= seq![add, k, v]);
    }
    if spec_parse_i32(v) is Ok {
        lemma_parsed_has_no_colon(v);
    }
    assert("del:"@ + k =~= del.push(':') + k);
    lemma_split_first(del, k, ':');
    lemma_split_whole(k, ':');
    assert(seq![del] + seq![k] =~= seq![del, k]);
}

/// Parses `set:key:value`, `add:key:value` and `del:key` lines into commands,
/// skipping every line that is not exactly one of these.
pub fn parser_2(v: Vec<&str>) -> (cmds: Vec<Command>)
    ensures
        command_models(cmds@) == commands_of(views(v@)),
{
    let mut cmds: Vec<Command> = Vec::new();
    let mut i: usize = 0;
    while i < v.len()
        invariant
            i <= v@.len(),
            command_models(cmds@) == commands_of(views(v@).take(i as int)),
        decreases v@.len() - i,
    {
        let line = v[i];
        let ghost prev = cmds@;
        assert(views(v@).take(i + 1).drop_last() =~= views(v@).take(i as int));
        assert(views(v@).take(i + 1).last() == line@);
        let parts = split_char(line, ':');
        assert(views(parts@).len() == parts@.len());
        let n = parts.len();
        if n == 3 && (str_eq(parts[0], "set") || str_eq(parts[0], "add")) && !parts[1].is_empty() {
            assert(views(parts@)[0] == parts@[0]@ && views(parts@)[1] == parts@[1]@ && views(
                parts@,
            )[2] == parts@[2]@);
            if let Ok(value) = parse_i32(parts[2]) {
                if str_eq(parts[0], "set") {
                    cmds.push(Command::Assign(parts[1].to_owned(), value));
                } else {
                    cmds.push(Command::Add(parts[1].to_owned(), value));
                }
                assert(command_models(cmds@) =~= command_models(prev).push(cmds@.last()@));
            }
        } else if n == 2 && str_eq(parts[0], "del") && !parts[1].is_empty() {
            assert(views(parts@)[0] == parts@[0]@ && views(parts@)[1] == parts@[1]@);
            cmds.push(Command::Del(parts[1].to_owned()));
            assert(command_models(cmds@) =~= command_models(prev).push(cmds@.last()@));
        } else {
            assert(n == 3 ==> views(parts@)[0] == parts@[0]@ && views(parts@)[1] == parts@[1]@);
            assert(n == 2 ==> views(parts@)[0] == parts@[0]@ && views(parts@)[1] == parts@[1]@);
        }
        i += 1;
    }
    assert(views(v@).take(v@.len() as int) =~= views(v@));
    cmds
}

/// What the `;`-separated fields of a log line record, read left to right:
/// whether a field is exactly `method=GET`, whether a field is exactly
/// `status=200`, and the text after `latency_ms=` in the last field that
/// starts with it.
pub open spec fn scan_fields(fields: Seq<Seq<char>>) -> (bool, bool, Option<Seq<char>>)
    decreases fields.len(),
{
    if fields.len() == 0 {
        (false, false, None)
    } else {
        let (method, status, latency) = scan_fields(fields.drop_last());
        let f = fields.last();
        if f == "method=GET"@ {
            (true, status, latency)
        } else if f == "status=200"@ {
            (method, true, latency)
        } else {
            match strip_prefix(f, "latency_ms="@) {
                Some(ms) => (method, status, Some(ms)),
                None => (method, status, latency),
            }
        }
    }
}

/// The latency text of a log line: a line that starts with `INFO` and records
/// a GET with status 200 yields the text of its last latency field, if any.
pub open spec fn line_latency(line: Seq<char>) -> Option<Seq<char>> {
    if starts_with(line, "INFO"@) {
        let (method, status, latency) = scan_fields(split(line, ';'));
        if method && status {
            latency
        } else {
            None
        }
    } else {
        None
    }
}

/// The latency texts of the log's lines, in order.
pub open spec fn log_latencies(log: Seq<char>) -> Seq<Seq<char>> {
    lines(log).filter_map(|l: Seq<char>| line_latency(l))
}

/// What scanning the fields finds: whether some field is exactly
/// `method=GET`, whether some field is exactly `status=200`, and the text
/// after `latency_ms=` in the last field that starts with it.
proof fn lemma_scan_fields(fields: Seq<Seq<char>>)
    ensures
        scan_fields(fields).0 == fields.contains("method=GET"@),
        scan_fields(fields).1 == fields.contains("status=200"@),
        (scan_fields(fields).2 is Some) == (exists|i: int|
            0 <= i < fields.len() && #[trigger] strip_prefix(fields[i], "latency_ms="@) is Some),
        scan_fields(fields).2 matches Some(t) ==> exists|i: int|
            0 <= i < fields.len() && #[trigger] strip_prefix(fields[i], "latency_ms="@) == Some(t)
                && forall|j: int|
                i < j < fields.len() ==> #[trigger] strip_prefix(fields[j], "latency_ms="@) is None,
    decreases fields.len(),
{
    reveal_strlit("method=GET");
    reveal_strlit("status=200");
    reveal_strlit("latency_ms=");
    let lat = "latency_ms="@;
    assert(strip_prefix("method=GET"@, lat) is None);
    assert(strip_prefix("status=200"@, lat) is None);
    assert("method=GET"@ != "status=200"@) by {
        assert("method=GET"@[0] != "status=200"@[0]);
    }
    if fields.len() > 0 {
        let rest = fields.drop_last();
        let f = fields.last();
        lemma_scan_fields(rest);
        assert(fields =~= rest.push(f));
        assert forall|x: Seq<char>| fields.contains(x) <==> (rest.contains(x) || f == x) by {
            if fields.contains(x) {
                let i = choose|i: int| 0 <= i < fields.len() && fields[i] == x;
                if i < rest.len() {
                    assert(rest[i] == x);
                }
            }
            if rest.contains(x) {
                let i = choose|i: int| 0 <= i < rest.len() && rest[i] == x;
                assert(fields[i] == x);
            }
            if f == x {
                assert(fields[fields.len() - 1] == x);
            }
        }
        let last = fields.len() - 1;
        assert(fields[last] == f);
        assert forall|i: int| 0 <= i < rest.len() implies fields[i] == rest[i] by {}
        if (exists|i: int| 0 <= i < fields.len() && #[trigger] strip_prefix(fields[i], lat) is Some) {
            let i = choose|i: int| 0 <= i < fields.len() && #[trigger] strip_prefix(fields[i], lat) is Some;
            if i < rest.len() {
                assert(strip_prefix(rest[i], lat) is Some);
            }
        }
        if (exists|i: int| 0 <= i < rest.len() && #[trigger] strip_prefix(rest[i], lat) is Some) {
            let i = choose|i: int| 0 <= i < rest.len() && #[trigger] strip_prefix(rest[i], lat) is Some;
            assert(strip_prefix(fields[i], lat) is Some);
        }
        if let Some(t) = scan_fields(fields).2 {
            if strip_prefix(f, lat) is Some {
                assert(strip_prefix(fields[last], lat) == Some(t));
            } else {
                let i = choose|i: int|
                    0 <= i < rest.len() && #[trigger] strip_prefix(rest[i], lat) == Some(t)
                        && forall|j: int|
                        i < j < rest.len() ==> #[trigger] strip_prefix(rest[j], lat) is None;
                assert(strip_prefix(fields[i], lat) == Some(t));
                assert forall|j: int| i < j < fields.len() implies #[trigger] strip_prefix(
                    fields[j],
                    lat,
                ) is None by {
                    if j < rest.len() {
                        assert(strip_prefix(rest[j], lat) is None);
                    }
                }
            }
        }
    }
}

/// A log line yields a latency exactly when it starts with `INFO` and has a
/// field that is exactly `method=GET`, a field that is exactly `status=200`,
/// and a field starting with `latency_ms=`; the latency is the text after that
/// prefix in the last such field.
pub proof fn lemma_line_latency(line: Seq<char>)
    ensures
        (line_latency(line) is Some) == (starts_with(line, "INFO"@) && split(line, ';').contains(
            "method=GET"@,
        ) && split(line, ';').contains("status=200"@) && exists|i: int|
            0 <= i < split(line, ';').len() && #[trigger] strip_prefix(
                split(line, ';')[i],
                "latency_ms="@,
            ) is Some),
        line_latency(line) matches Some(t) ==> exists|i: int|
            0 <= i < split(line, ';').len() && #[trigger] strip_prefix(
                split(line, ';')[i],
                "latency_ms="@,
            ) == Some(t) && forall|j: int|
                i < j < split(line, ';').len() ==> #[trigger] strip_prefix(
                    split(line, ';')[j],
                    "latency_ms="@,
                ) is None,
{
    lemma_scan_fields(split(line, ';'));
}

/// The latency text of one log line.
fn latency_of_line<'a>(line: &'a str) -> (r: Option<&'a str>)
    ensures
        match r {
            Some(t) => line_latency(line@) == Some(t@),
            None => line_latency(line@) is None,
        },
{
    if !starts_with_str(line, "INFO") {
        return None;
    }
    let fields = split_char(line, ';');
    let mut method = false;
    let mut status = false;
    let mut latency: Option<&'a str> = None;
    let mut k: usize = 0;
    while k < fields.len()
        invariant
            k <= fields@.len(),
            scan_fields(views(fields@).take(k as int)) == (method, status, match latency {
                Some(t) => Some(t@),
                None => None::<Seq<char>>,
            }),
        decreases fields@.len() - k,
    {
        let f = fields[k];
        assert(views(fields@).take(k + 1).drop_last() =~= views(fields@).take(k as int));
        assert(views(fields@).take(k + 1).last() == f@);
        if str_eq(f, "method=GET") {
            method = true;
        } else if str_eq(f, "status=200") {
            status = true;
        } else if let Some(ms) = strip_prefix_str(f, "latency_ms=") {
            latency = Some(ms);
        }
        k += 1;
    }
    assert(views(fields@).take(fields@.len() as int) =~= views(fields@));
    if method && status {
        latency
    } else {
        None
    }
}

/// The text after `latency_ms=` in each `INFO` line of the log that records a
/// GET request answered with status 200, in line order; a line with several
/// latency fields yields its last one, a line with none yields nothing.
pub fn latency_fields<'a>(log_data: &'a str) -> (r: Vec<&'a str>)
    ensures
        views(r@) == log_latencies(log_data@),
{
    let all = lines_of(log_data);
    let mut out: Vec<&'a str> = Vec::new();
    let mut i: usize = 0;
    while i < all.len()
        invariant
            i <= all@.len(),
            views(all@) == lines(log_data@),
            views(out@) == views(all@).take(i as int).filter_map(|l: Seq<char>| line_latency(l)),
        decreases all@.len() - i,
    {
        let line = all[i];
        let ghost prev = out@;
        assert(views(all@).take(i + 1).drop_last() =~= views(all@).take(i as int));
        assert(views(all@).take(i + 1).last() == line@);
        if let Some(t) = latency_of_line(line) {
            out.push(t);
            assert(views(out@) =~= views(prev).push(t@));
        }
        i += 1;
    }
    assert(views(all@).take(all@.len() as int) =~= views(all@));
    out
}

} // verus!
