//! What the command line client asks for and prints.
use vstd::prelude::*;
use vstd::string::StringExecFns;
use vstd::utf8::encode_utf8;

use crate::server::grpc::{
    compact_response, event_of, flush_response, stats_response, CompactResponse, FlushResponse,
    GetResponse, ScanResponse, StatsResponse, WatchEvent, WatchResponse,
};
use crate::storage::compaction::CompactionReport;
use crate::storage::engine::{texts_of, StorageStats};
use crate::storage::sstable::SstableMetadata;
use crate::text::{
    bool_text, chars_of, decimal, is_decimal_of, is_text_of, law_decimal_shows_the_number,
    law_truth_in_words, push_bool, push_decimal, text_of, utf8_lossy,
};

verus! {

/// Which server the client talks to.
#[derive(Clone, Debug, PartialEq, Eq)]
pub struct ClientConfig {
    pub endpoint: String,
}

impl Default for ClientConfig {
    fn default() -> (config: Self)
        ensures
            config.endpoint@ == "http://127.0.0.1:50051"@,
    {
        ClientConfig { endpoint: String::from_str("http://127.0.0.1:50051") }
    }
}

/// The limit that is sent with a scan: the low 32 bits of the one asked for.
pub fn remote_limit(limit: usize) -> (sent: u32)
    ensures
        sent as nat == limit as nat % 0x1_0000_0000,
{
    let wide: u64 = limit as u64;
    let low: u64 = wide % 0x1_0000_0000;
    low as u32
}

/// What is printed of a lookup: the value as text, if there is one.
pub fn get_line(value: Option<Vec<u8>>) -> (line: String)
    ensures
        match value {
            Some(bytes) => is_text_of(line@, bytes@),
            None => line@ == "(not found)"@,
        },
{
    match value {
        Some(bytes) => text_of(bytes.as_slice()),
        None => String::from_str("(not found)"),
    }
}

/// What is printed of a server's answer to a lookup.
pub fn remote_get_line(response: GetResponse) -> (line: String)
    ensures
        line@ == if response.found {
            response.value@
        } else {
            "(not found)"@
        },
{
    if response.found {
        response.value
    } else {
        String::from_str("(not found)")
    }
}

/// What is printed of a row.
pub fn scan_line(key: &[u8], value: &[u8]) -> (line: String)
    ensures
        line@ == utf8_lossy(key@) + "="@ + utf8_lossy(value@),
        forall|k: Seq<char>, v: Seq<char>|
            key@ == #[trigger] encode_utf8(k) && value@ == #[trigger] encode_utf8(v) ==> line@ == k
                + "="@ + v,
{
    let mut line = text_of(key);
    line.append("=");
    line.append(text_of(value).as_str());
    line
}

/// What is printed of a row of a server's answer.
pub fn remote_scan_line(row: &ScanResponse) -> (line: String)
    ensures
        line@ == row.key@ + "="@ + row.value@,
{
    let mut line = row.key.clone();
    line.append("=");
    line.append(row.value.as_str());
    line
}

/// What is printed of a flush.
pub open spec fn flush_text(response: FlushResponse) -> Seq<char> {
    if response.flushed {
        "flushed sstable_id="@ + decimal(response.sstable_id as nat) + " entries="@ + decimal(
            response.entries as nat,
        )
    } else {
        "nothing to flush"@
    }
}

/// What is printed of a server's answer to a flush.
pub fn remote_flush_line(response: FlushResponse) -> (line: String)
    ensures
        line@ == flush_text(response),
        response.flushed ==> shows_flush(line@, response.sstable_id as nat, response.entries as nat),
        !response.flushed ==> line@ == "nothing to flush"@,
{
    proof {
        law_flush_line(response);
    }
    if response.flushed {
        let mut line = String::from_str("flushed sstable_id=");
        push_decimal(&mut line, response.sstable_id);
        line.append(" entries=");
        push_decimal(&mut line, response.entries);
        line
    } else {
        String::from_str("nothing to flush")
    }
}

/// What is printed of a flush: the number of the new table and how many entries it
/// has.
pub fn flush_line(metadata: Option<SstableMetadata>) -> (line: String)
    ensures
        line@ == match metadata {
            Some(metadata) => "flushed sstable_id="@ + decimal(metadata.id.0 as nat)
                + " entries="@ + decimal(metadata.entry_count as nat),
            None => "nothing to flush"@,
        },
        metadata matches Some(table) ==> shows_flush(
            line@,
            table.id.0 as nat,
            table.entry_count as nat,
        ),
{
    remote_flush_line(flush_response(metadata))
}

/// A number with its name.
pub open spec fn number_text(name: Seq<char>, number: nat) -> Seq<char> {
    name + "="@ + decimal(number)
}

/// A truth value with its name.
pub open spec fn flag_text(name: Seq<char>, flag: bool) -> Seq<char> {
    name + "="@ + bool_text(flag)
}

/// A number with its name.
fn number_line(name: &str, number: u64) -> (line: String)
    ensures
        line@ == number_text(name@, number as nat),
        shows_number(line@, name@, number as nat),
{
    proof {
        law_number_line(name@, number as nat);
    }
    let mut line = String::from_str(name);
    line.append("=");
    push_decimal(&mut line, number);
    line
}

/// A truth value with its name.
fn flag_line(name: &str, flag: bool) -> (line: String)
    ensures
        line@ == flag_text(name@, flag),
        shows_flag(line@, name@, flag),
{
    proof {
        law_flag_line(name@, flag);
    }
    let mut line = String::from_str(name);
    line.append("=");
    push_bool(&mut line, flag);
    line
}

/// What is printed of a compaction, line by line.
pub open spec fn compact_text(response: CompactResponse) -> Seq<Seq<char>> {
    seq![
        flag_text("flushed_memtable"@, response.flushed_memtable),
        number_text("input_sstables"@, response.input_sstables as nat),
        number_text("output_sstables"@, response.output_sstables as nat),
        number_text("input_entries"@, response.input_entries as nat),
        number_text("output_entries"@, response.output_entries as nat),
        number_text("dropped_entries"@, response.dropped_entries as nat),
    ]
}

/// What is printed of a server's answer to a compaction.
pub fn remote_compact_lines(response: CompactResponse) -> (lines: Vec<String>)
    ensures
        texts_of(lines@) == compact_text(response),
        lines.len() == 6,
        shows_flag(lines@[0]@, "flushed_memtable"@, response.flushed_memtable),
        shows_number(lines@[1]@, "input_sstables"@, response.input_sstables as nat),
        shows_number(lines@[2]@, "output_sstables"@, response.output_sstables as nat),
        shows_number(lines@[3]@, "input_entries"@, response.input_entries as nat),
        shows_number(lines@[4]@, "output_entries"@, response.output_entries as nat),
        shows_number(lines@[5]@, "dropped_entries"@, response.dropped_entries as nat),
{
    let mut lines: Vec<String> = Vec::new();
    lines.push(flag_line("flushed_memtable", response.flushed_memtable));
    lines.push(number_line("input_sstables", response.input_sstables));
    lines.push(number_line("output_sstables", response.output_sstables));
    lines.push(number_line("input_entries", response.input_entries));
    lines.push(number_line("output_entries", response.output_entries));
    lines.push(number_line("dropped_entries", response.dropped_entries));
    assert(texts_of(lines@) =~= compact_text(response));
    lines
}

/// What is printed of a compaction.
pub fn compact_lines(report: CompactionReport) -> (lines: Vec<String>)
    ensures
        texts_of(lines@) == seq![
            flag_text("flushed_memtable"@, report.flushed_memtable),
            number_text("input_sstables"@, report.input_sstables as nat),
            number_text("output_sstables"@, report.output_sstables as nat),
            number_text("input_entries"@, report.input_entries as nat),
            number_text("output_entries"@, report.output_entries as nat),
            number_text("dropped_entries"@, report.dropped_entries as nat),
        ],
        lines.len() == 6,
        shows_flag(lines@[0]@, "flushed_memtable"@, report.flushed_memtable),
        shows_number(lines@[1]@, "input_sstables"@, report.input_sstables as nat),
        shows_number(lines@[2]@, "output_sstables"@, report.output_sstables as nat),
        shows_number(lines@[3]@, "input_entries"@, report.input_entries as nat),
        shows_number(lines@[4]@, "output_entries"@, report.output_entries as nat),
        shows_number(lines@[5]@, "dropped_entries"@, report.dropped_entries as nat),
{
    remote_compact_lines(compact_response(report))
}

/// What is printed of a store's state, line by line.
pub open spec fn stats_text(stats: StatsResponse) -> Seq<Seq<char>> {
    seq![
        number_text("memtable_entries"@, stats.memtable_entries as nat),
        number_text("memtable_bytes"@, stats.memtable_bytes as nat),
        number_text("flush_threshold_bytes"@, stats.flush_threshold_bytes as nat),
        flag_text("should_flush"@, stats.should_flush),
        number_text("sstable_count"@, stats.sstable_count as nat),
        number_text("bloom_filter_count"@, stats.bloom_filter_count as nat),
        number_text("next_sstable_id"@, stats.next_sstable_id as nat),
    ]
}

/// What is printed of a server's answer on its state.
pub fn remote_stats_lines(stats: StatsResponse) -> (lines: Vec<String>)
    ensures
        texts_of(lines@) == stats_text(stats),
        lines.len() == 7,
        shows_number(lines@[0]@, "memtable_entries"@, stats.memtable_entries as nat),
        shows_number(lines@[1]@, "memtable_bytes"@, stats.memtable_bytes as nat),
        shows_number(lines@[2]@, "flush_threshold_bytes"@, stats.flush_threshold_bytes as nat),
        shows_flag(lines@[3]@, "should_flush"@, stats.should_flush),
        shows_number(lines@[4]@, "sstable_count"@, stats.sstable_count as nat),
        shows_number(lines@[5]@, "bloom_filter_count"@, stats.bloom_filter_count as nat),
        shows_number(lines@[6]@, "next_sstable_id"@, stats.next_sstable_id as nat),
{
    let mut lines: Vec<String> = Vec::new();
    lines.push(number_line("memtable_entries", stats.memtable_entries));
    lines.push(number_line("memtable_bytes", stats.memtable_bytes));
    lines.push(number_line("flush_threshold_bytes", stats.flush_threshold_bytes));
    lines.push(flag_line("should_flush", stats.should_flush));
    lines.push(number_line("sstable_count", stats.sstable_count));
    lines.push(number_line("bloom_filter_count", stats.bloom_filter_count));
    lines.push(number_line("next_sstable_id", stats.next_sstable_id));
    assert(texts_of(lines@) =~= stats_text(stats));
    lines
}

/// What is printed of a store's state.
pub fn stats_lines(stats: StorageStats) -> (lines: Vec<String>)
    ensures
        texts_of(lines@) == seq![
            number_text("memtable_entries"@, stats.memtable_entries as nat),
            number_text("memtable_bytes"@, stats.memtable_bytes as nat),
            number_text("flush_threshold_bytes"@, stats.flush_threshold_bytes as nat),
            flag_text("should_flush"@, stats.should_flush),
            number_text("sstable_count"@, stats.sstable_count as nat),
            number_text("bloom_filter_count"@, stats.bloom_filter_count as nat),
            number_text("next_sstable_id"@, stats.next_sstable_id as nat),
        ],
        lines.len() == 7,
        shows_number(lines@[0]@, "memtable_entries"@, stats.memtable_entries as nat),
        shows_number(lines@[1]@, "memtable_bytes"@, stats.memtable_bytes as nat),
        shows_number(lines@[2]@, "flush_threshold_bytes"@, stats.flush_threshold_bytes as nat),
        shows_flag(lines@[3]@, "should_flush"@, stats.should_flush),
        shows_number(lines@[4]@, "sstable_count"@, stats.sstable_count as nat),
        shows_number(lines@[5]@, "bloom_filter_count"@, stats.bloom_filter_count as nat),
        shows_number(lines@[6]@, "next_sstable_id"@, stats.next_sstable_id as nat),
{
    remote_stats_lines(stats_response(stats))
}

/// The name of an event, as it is printed.
pub open spec fn event_label(event: WatchEvent) -> Seq<char> {
    match event {
        WatchEvent::Put => "PUT"@,
        WatchEvent::Delete => "DELETE"@,
        WatchEvent::Unspecified => "UNKNOWN"@,
    }
}

/// What is printed of an event: its name, its key, and its value if that is not
/// empty.
pub fn watch_line(event: &WatchResponse) -> (line: String)
    ensures
        line@ == event_label(event_of(event.event)) + " "@ + event.key@ + (if event.value@.len()
            == 0 {
            Seq::empty()
        } else {
            "="@ + event.value@
        }),
{
    let mut line = String::from_str(
        match WatchEvent::from_number(event.event) {
            WatchEvent::Put => "PUT",
            WatchEvent::Delete => "DELETE",
            WatchEvent::Unspecified => "UNKNOWN",
        },
    );
    line.append(" ");
    line.append(event.key.as_str());
    let ghost front = line@;
    if chars_of(event.value.as_str()).len() > 0 {
        line.append("=");
        line.append(event.value.as_str());
        assert(line@ =~= front + ("="@ + event.value@));
    } else {
        assert(line@ =~= front + Seq::<char>::empty());
    }
    line
}

// What the printed lines show.

/// Whether a line is a name, an equals sign, and a number in decimal.
pub open spec fn shows_number(line: Seq<char>, name: Seq<char>, number: nat) -> bool {
    &&& line.len() > name.len() + 1
    &&& line.take(name.len() as int) == name
    &&& line[name.len() as int] == '='
    &&& is_decimal_of(line.skip(name.len() as int + 1), number)
}

/// Whether a line is a name, an equals sign, and a truth value in words.
pub open spec fn shows_flag(line: Seq<char>, name: Seq<char>, flag: bool) -> bool {
    &&& line.len() > name.len() + 1
    &&& line.take(name.len() as int) == name
    &&& line[name.len() as int] == '='
    &&& line.skip(name.len() as int + 1) == if flag {
        seq!['t', 'r', 'u', 'e']
    } else {
        seq!['f', 'a', 'l', 's', 'e']
    }
}

/// Whether a line tells of a flush, with the number of the table and how many entries
/// it has, both in decimal.
pub open spec fn shows_flush(line: Seq<char>, id: nat, entries: nat) -> bool {
    exists|first: Seq<char>, second: Seq<char>|
        #![trigger is_decimal_of(first, id), is_decimal_of(second, entries)]
        is_decimal_of(first, id) && is_decimal_of(second, entries) && line
            == "flushed sstable_id="@ + first + " entries="@ + second
}

/// The line of a number is its name, an equals sign, and digits alone, without zeros in
/// front, whose value is exactly the number.
pub proof fn law_number_line(name: Seq<char>, number: nat)
    ensures
        shows_number(number_text(name, number), name, number),
{
    reveal_strlit("=");
    law_decimal_shows_the_number(number);
    let line = number_text(name, number);
    assert(line.take(name.len() as int) =~= name);
    assert(line.skip(name.len() as int + 1) =~= decimal(number));
}

/// The line of a truth value is its name, an equals sign, and the value in words.
pub proof fn law_flag_line(name: Seq<char>, flag: bool)
    ensures
        shows_flag(flag_text(name, flag), name, flag),
{
    reveal_strlit("=");
    law_truth_in_words();
    let line = flag_text(name, flag);
    assert(line.take(name.len() as int) =~= name);
    assert(line.skip(name.len() as int + 1) =~= bool_text(flag));
}

/// What is printed of a flush that wrote a table gives the table's number and how many
/// entries it has; of one that had nothing to do, that.
pub proof fn law_flush_line(response: FlushResponse)
    ensures
        response.flushed ==> shows_flush(
            flush_text(response),
            response.sstable_id as nat,
            response.entries as nat,
        ),
        !response.flushed ==> flush_text(response) == "nothing to flush"@,
{
    law_decimal_shows_the_number(response.sstable_id as nat);
    law_decimal_shows_the_number(response.entries as nat);
}

/// What is printed of a compaction gives each number of its report under its name.
pub proof fn law_compaction_lines(response: CompactResponse)
    ensures
        compact_text(response).len() == 6,
        shows_flag(compact_text(response)[0], "flushed_memtable"@, response.flushed_memtable),
        shows_number(compact_text(response)[1], "input_sstables"@, response.input_sstables as nat),
        shows_number(compact_text(response)[2], "output_sstables"@, response.output_sstables as nat),
        shows_number(compact_text(response)[3], "input_entries"@, response.input_entries as nat),
        shows_number(compact_text(response)[4], "output_entries"@, response.output_entries as nat),
        shows_number(compact_text(response)[5], "dropped_entries"@, response.dropped_entries as nat),
{
    law_flag_line("flushed_memtable"@, response.flushed_memtable);
    law_number_line("input_sstables"@, response.input_sstables as nat);
    law_number_line("output_sstables"@, response.output_sstables as nat);
    law_number_line("input_entries"@, response.input_entries as nat);
    law_number_line("output_entries"@, response.output_entries as nat);
    law_number_line("dropped_entries"@, response.dropped_entries as nat);
}

/// What is printed of a store's state gives each of its numbers under its name.
pub proof fn law_stats_lines(stats: StatsResponse)
    ensures
        stats_text(stats).len() == 7,
        shows_number(stats_text(stats)[0], "memtable_entries"@, stats.memtable_entries as nat),
        shows_number(stats_text(stats)[1], "memtable_bytes"@, stats.memtable_bytes as nat),
        shows_number(
            stats_text(stats)[2],
            "flush_threshold_bytes"@,
            stats.flush_threshold_bytes as nat,
        ),
        shows_flag(stats_text(stats)[3], "should_flush"@, stats.should_flush),
        shows_number(stats_text(stats)[4], "sstable_count"@, stats.sstable_count as nat),
        shows_number(stats_text(stats)[5], "bloom_filter_count"@, stats.bloom_filter_count as nat),
        shows_number(stats_text(stats)[6], "next_sstable_id"@, stats.next_sstable_id as nat),
{
    law_number_line("memtable_entries"@, stats.memtable_entries as nat);
    law_number_line("memtable_bytes"@, stats.memtable_bytes as nat);
    law_number_line("flush_threshold_bytes"@, stats.flush_threshold_bytes as nat);
    law_flag_line("should_flush"@, stats.should_flush);
    law_number_line("sstable_count"@, stats.sstable_count as nat);
    law_number_line("bloom_filter_count"@, stats.bloom_filter_count as nat);
    law_number_line("next_sstable_id"@, stats.next_sstable_id as nat);
}


/// The events have the names that are printed of them.
pub proof fn law_event_labels()
    ensures
        event_label(WatchEvent::Put) == "PUT"@,
        event_label(WatchEvent::Delete) == "DELETE"@,
        event_label(WatchEvent::Unspecified) == "UNKNOWN"@,
{
}

} // verus!
