//! The list of hosts to watch.

use crate::text::chars_of;
use vstd::prelude::*;
use vstd::string::StrSliceExecFns;

verus! {

/// One host of the list: the name shown for it, its address, which is also
/// the key under which its record is kept, and the relay through which it is
/// probed, if any.
#[derive(Debug)]
pub struct HostEntry {
    pub name: String,
    pub ip: String,
    pub ssh: Option<String>,
}

/// What a [`HostEntry`] holds, as mathematical values.
pub struct HostEntryView {
    pub name: Seq<char>,
    pub ip: Seq<char>,
    pub ssh: Option<Seq<char>>,
}

impl View for HostEntry {
    type V = HostEntryView;

    open spec fn view(&self) -> HostEntryView {
        HostEntryView {
            name: self.name@,
            ip: self.ip@,
            ssh: match self.ssh {
                Some(relay) => Some(relay@),
                None => None,
            },
        }
    }
}

impl Clone for HostEntry {
    fn clone(&self) -> (copy: HostEntry)
        ensures
            copy@ == self@,
    {
        HostEntry {
            name: self.name.clone(),
            ip: self.ip.clone(),
            ssh: match &self.ssh {
                Some(relay) => Some(relay.clone()),
                None => None,
            },
        }
    }
}

/// `c` is white space: one of the characters that Unicode marks as
/// `White_Space`.
pub open spec fn is_space(c: char) -> bool {
    ||| c == ' '
    ||| ('\t' <= c && c <= '\r')
    ||| c == '\u{85}'
    ||| c == '\u{A0}'
    ||| c == '\u{1680}'
    ||| ('\u{2000}' <= c && c <= '\u{200A}')
    ||| c == '\u{2028}'
    ||| c == '\u{2029}'
    ||| c == '\u{202F}'
    ||| c == '\u{205F}'
    ||| c == '\u{3000}'
}

/// `text` without the white space at its start.
pub open spec fn trim_start(text: Seq<char>) -> Seq<char>
    decreases text.len(),
{
    if text.len() > 0 && is_space(text[0]) {
        trim_start(text.drop_first())
    } else {
        text
    }
}

/// `text` without the white space at its end.
pub open spec fn trim_end(text: Seq<char>) -> Seq<char>
    decreases text.len(),
{
    if text.len() > 0 && is_space(text.last()) {
        trim_end(text.drop_last())
    } else {
        text
    }
}

/// `text` without the white space at its start and at its end.
pub open spec fn trimmed(text: Seq<char>) -> Seq<char> {
    trim_end(trim_start(text))
}

/// Field `i` of `row`, trimmed; empty where the row has no such field.
pub open spec fn field_of(row: Seq<Seq<char>>, i: int) -> Seq<char> {
    if 0 <= i < row.len() {
        trimmed(row[i])
    } else {
        Seq::empty()
    }
}

/// The host that a row of the list describes: name, address and relay are
/// its first three fields, trimmed. A row without an address describes none,
/// and an empty relay means that the host is probed directly.
pub open spec fn host_of_row(row: Seq<Seq<char>>) -> Option<HostEntryView> {
    if field_of(row, 1).len() == 0 {
        None
    } else {
        Some(
            HostEntryView {
                name: field_of(row, 0),
                ip: field_of(row, 1),
                ssh: if field_of(row, 2).len() == 0 {
                    None
                } else {
                    Some(field_of(row, 2))
                },
            },
        )
    }
}

/// The hosts that `rows` describe, in order. A row that could not be read
/// (`None`) is passed over, as is one without an address.
pub open spec fn hosts_of_rows(rows: Seq<Option<Seq<Seq<char>>>>) -> Seq<HostEntryView>
    decreases rows.len(),
{
    if rows.len() == 0 {
        Seq::empty()
    } else {
        let before = hosts_of_rows(rows.drop_last());
        match rows.last() {
            Some(row) => match host_of_row(row) {
                Some(host) => before.push(host),
                None => before,
            },
            None => before,
        }
    }
}

/// The views of `hosts`.
pub open spec fn host_views(hosts: Seq<HostEntry>) -> Seq<HostEntryView> {
    hosts.map_values(|h: HostEntry| h@)
}

/// The records that the `csv` crate reads from `bytes` with its default
/// settings, after the header row where `has_headers` says that there is
/// one: for each record its fields, or `None` where the crate reports an
/// error in its place.
pub uninterp spec fn csv_records(bytes: Seq<u8>, has_headers: bool) -> Seq<Option<Seq<Seq<char>>>>;

/// `csv::Reader::records`, on a reader that `csv::ReaderBuilder` makes over
/// `bytes` with `has_headers` set as given and nothing else changed. Each
/// record is handed on as its fields, each error as `None`. The contract
/// only gives what comes back a name.
#[verifier::external_body]
fn read_records(bytes: &[u8], has_headers: bool) -> (rows: Vec<Option<Vec<String>>>)
    ensures
        rows.deep_view() == csv_records(bytes@, has_headers),
{
    let mut reader = csv::ReaderBuilder::new().has_headers(has_headers).from_reader(bytes);
    let mut rows = Vec::new();
    for record in reader.records() {
        rows.push(record.ok().map(|fields| fields.iter().map(String::from).collect()));
    }
    rows
}

/// Whether `c` is white space.
pub fn is_space_char(c: char) -> (space: bool)
    ensures
        space == is_space(c),
{
    c == ' ' || ('\t' <= c && c <= '\r') || c == '\u{85}' || c == '\u{A0}' || c == '\u{1680}' || (
    '\u{2000}' <= c && c <= '\u{200A}') || c == '\u{2028}' || c == '\u{2029}' || c == '\u{202F}'
        || c == '\u{205F}' || c == '\u{3000}'
}

/// `text` without the white space at its start and at its end.
pub fn trim(text: &str) -> (out: String)
    ensures
        out@ == trimmed(text@),
{
    let chars = chars_of(text);
    let n = chars.len();
    let mut a: usize = 0;
    assert(chars@.skip(0) =~= chars@);
    while a < n && is_space_char(chars[a])
        invariant
            n == chars.len(),
            a <= n,
            trim_start(chars@) == trim_start(chars@.skip(a as int)),
        decreases n - a,
    {
        assert(chars@.skip(a as int).drop_first() =~= chars@.skip(a + 1));
        a += 1;
    }
    let ghost rest = chars@.skip(a as int);
    assert(trim_start(chars@) == rest);
    let mut b: usize = n;
    assert(rest.take(n - a) =~= rest);
    while b > a && is_space_char(chars[b - 1])
        invariant
            n == chars.len(),
            a <= b <= n,
            rest == chars@.skip(a as int),
            trim_end(rest) == trim_end(rest.take(b - a)),
        decreases b - a,
    {
        assert(rest.take(b - a).drop_last() =~= rest.take(b - a - 1));
        assert(rest.take(b - a).last() == chars@[b - 1]);
        b -= 1;
    }
    assert(trim_end(rest) == rest.take(b - a)) by {
        if b > a {
            assert(rest.take(b - a).last() == chars@[b - 1]);
        }
    }
    assert(rest.take(b - a) =~= text@.subrange(a as int, b as int));
    text.substring_char(a, b).to_owned()
}

/// Field `i` of `row`, trimmed; empty where the row has no such field.
pub fn field(row: &Vec<String>, i: usize) -> (out: String)
    ensures
        out@ == field_of(row.deep_view(), i as int),
{
    if i < row.len() {
        trim(row[i].as_str())
    } else {
        String::new()
    }
}

/// The host that `row` describes, if it describes one.
pub fn host_from_row(row: &Vec<String>) -> (host: Option<HostEntry>)
    ensures
        match host {
            Some(h) => host_of_row(row.deep_view()) == Some(h@),
            None => host_of_row(row.deep_view()) is None,
        },
{
    let name = field(row, 0);
    let ip = field(row, 1);
    let ssh = field(row, 2);
    if ip.as_str().is_empty() {
        None
    } else {
        let relay = if ssh.as_str().is_empty() {
            None
        } else {
            Some(ssh)
        };
        Some(HostEntry { name, ip, ssh: relay })
    }
}

/// The hosts that `rows` describe, in order.
pub fn hosts_from_rows(rows: &Vec<Option<Vec<String>>>) -> (hosts: Vec<HostEntry>)
    ensures
        host_views(hosts@) == hosts_of_rows(rows.deep_view()),
{
    let mut hosts: Vec<HostEntry> = Vec::new();
    let mut k: usize = 0;
    assert(host_views(hosts@) =~= Seq::empty());
    while k < rows.len()
        invariant
            k <= rows.len(),
            host_views(hosts@) == hosts_of_rows(rows.deep_view().take(k as int)),
        decreases rows.len() - k,
    {
        let ghost before = host_views(hosts@);
        proof {
            let done = rows.deep_view().take(k + 1);
            assert(done.drop_last() =~= rows.deep_view().take(k as int));
            assert(done.last() == rows[k as int].deep_view());
        }
        match &rows[k] {
            Some(row) => {
                match host_from_row(row) {
                    Some(host) => {
                        hosts.push(host);
                        assert(host_views(hosts@) =~= before.push(host@));
                    },
                    None => {},
                }
            },
            None => {},
        }
        k += 1;
    }
    assert(rows.deep_view().take(k as int) =~= rows.deep_view());
    hosts
}

/// The hosts that the list in `bytes` describes: comma-separated text whose
/// first row is a header.
pub fn hosts_from_csv(bytes: &[u8]) -> (hosts: Vec<HostEntry>)
    ensures
        host_views(hosts@) == hosts_of_rows(csv_records(bytes@, true)),
{
    let rows = read_records(bytes, true);
    hosts_from_rows(&rows)
}

} // verus!
