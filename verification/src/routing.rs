//! The decisions of the bootstrap server: who joins the network, where an
//! uploaded file is stored, where a file is fetched from, which entries record
//! stored files, and how the routing table is read from its text form.

use vstd::prelude::*;
use crate::decimal::{decimal, parse_u32, parse_unsigned, push_decimal, IntErrorKind};
use crate::keys::{hex_encode, hex_lower, is_route_key, route_key, route_key_of};
use crate::table::{
    insert_sorted, keys_sorted, lemma_insert_sorted, lemma_lookup_at, lemma_lookup_none, lookup,
    EntryView, RouteEntry, RoutingTable, TableView,
};
use crate::text::{chars_eq, chars_lt, chars_of, split_all, split_pieces, text_lt};

verus! {

/// What is sent to a storage node: the scope (uploader), the file name and the
/// data.
pub struct FileDetails {
    pub scope: String,
    pub file_name: String,
    pub data: String,
}

impl View for FileDetails {
    type V = (Seq<char>, Seq<char>, Seq<char>);

    open spec fn view(&self) -> (Seq<char>, Seq<char>, Seq<char>) {
        (self.scope@, self.file_name@, self.data@)
    }
}

/// The query of a request to join the network.
pub struct JoinParams {
    pub port: Option<String>,
    pub role: Option<String>,
}

/// The parameters of a request for a file.
pub struct FileParams {
    pub hash: Option<String>,
    pub file_name: Option<String>,
    pub node_name: Option<String>,
}

/// Where an uploaded file goes.
pub enum UploadRoute {
    /// The table already records the file; nothing is sent.
    AlreadyStored,
    /// Send `details` to `url`, the first node below the file's key.
    Forward { url: String, details: FileDetails },
    /// Send `text_details` to `url`, the first node of the table;
    /// `text_details` is `None` where the data is not UTF-8 text.
    Fallback { url: String, text_details: Option<FileDetails> },
    /// The table holds no node to store the file on.
    NoStorageNode,
}

/// A request for a file: where to send it, and what.
pub struct FileFetch {
    pub url: String,
    pub details: FileDetails,
}

/// Why a line of the routing table file is refused.
#[derive(Debug, PartialEq, Eq, Structural, Clone, Copy)]
pub enum RouteLineError {
    /// The line does not have exactly four `|`-separated fields.
    IncorrectTable,
    /// The port field is not a `u32`.
    BadPort(IntErrorKind),
}

// ---------------------------------------------------------------------------
// Joining the network
// ---------------------------------------------------------------------------

/// The port a node joins with: its port text read as a `u32`, else 8000.
pub open spec fn joined_port(port: Seq<char>) -> u32 {
    match parse_unsigned(port, u32::MAX as int) {
        Ok(v) => v as u32,
        Err(_) => 8000,
    }
}

/// The entry of a node that joins from `ip` with the port text `port`.
pub open spec fn join_entry(ip: Seq<char>, port: Seq<char>) -> EntryView {
    EntryView { ip, port: joined_port(port), node_name: "test"@ }
}

/// The reply to a node that joins.
pub open spec fn welcome_reply(ip: Seq<char>, port: Seq<char>) -> Seq<char> {
    "Hello, "@ + port + "! Your IP address is: "@ + ip
}

/// The reply to a node that is already in the table.
pub open spec fn already_joined_reply() -> Seq<char> {
    "Your already on the network"@
}

/// The table and the reply after a node with key `key` asks to join.
pub open spec fn join_outcome(s: TableView, key: Seq<char>, ip: Seq<char>, port: Seq<char>) -> (
    TableView,
    Seq<char>,
) {
    if lookup(s, key) is Some {
        (s, already_joined_reply())
    } else {
        (insert_sorted(s, key, join_entry(ip, port)), welcome_reply(ip, port))
    }
}

/// The port text of a join request: the given one, else `"8000"`.
pub open spec fn requested_port(params: JoinParams) -> Seq<char> {
    match params.port {
        Some(p) => p@,
        None => "8000"@,
    }
}

/// Records the node with key `key` that joins from `ip` with port text
/// `port`, unless the table holds `key` already; gives the reply.
pub fn join_network(table: &mut RoutingTable, key: &str, ip: &str, port: &str) -> (r: String)
    requires
        old(table).wf(),
    ensures
        final(table).wf(),
        (final(table)@, r@) == join_outcome(old(table)@, key@, ip@, port@),
        forall|k2: Seq<char>| k2 != key@ ==> lookup(#[trigger] final(table)@, k2) == lookup(old(table)@, k2),
{
    proof {
        lemma_join_records_only_its_key(old(table)@, key@, ip@, port@);
    }
    if table.position_of(key).is_some() {
        return String::from_str("Your already on the network");
    }
    let port_number = match parse_u32(port) {
        Ok(v) => v,
        Err(_) => 8000,
    };
    let entry = RouteEntry {
        ip: String::from_str(ip),
        port: port_number,
        node_name: String::from_str("test"),
    };
    table.insert(String::from_str(key), entry);
    let mut reply = String::from_str("Hello, ");
    reply.append(port);
    reply.append("! Your IP address is: ");
    reply.append(ip);
    reply
}

/// A node at `ip` asks to join: its key is that of `ip` followed by its port
/// text.
pub fn add_to_network(table: &mut RoutingTable, params: &JoinParams, ip: &str) -> (r: String)
    requires
        old(table).wf(),
    ensures
        final(table).wf(),
        (final(table)@, r@) == join_outcome(
            old(table)@,
            route_key_of(ip@, requested_port(*params)),
            ip@,
            requested_port(*params),
        ),
        is_route_key(route_key_of(ip@, requested_port(*params))),
{
    let port = match &params.port {
        Some(p) => p.clone(),
        None => String::from_str("8000"),
    };
    let key = route_key(ip, port.as_str());
    join_network(table, key.as_str(), ip, port.as_str())
}

// ---------------------------------------------------------------------------
// Uploading a file
// ---------------------------------------------------------------------------

/// Whether the scan for the node of a file with key `fh` stops at entry `e`:
/// `e` records that key, or `e` is a node whose key is below `fh`.
pub open spec fn stops_upload(e: (Seq<char>, EntryView), fh: Seq<char>) -> bool {
    e.0 == fh || (e.1.port != 0 && text_lt(e.0, fh))
}

/// The first position at or after `i` where the scan stops.
pub open spec fn upload_stop_from(s: TableView, fh: Seq<char>, i: int) -> Option<int>
    decreases s.len() - i,
{
    if i < 0 || i >= s.len() {
        None
    } else if stops_upload(s[i], fh) {
        Some(i)
    } else {
        upload_stop_from(s, fh, i + 1)
    }
}

/// The first position at or after `i` that holds a node.
pub open spec fn node_from(s: TableView, i: int) -> Option<int>
    decreases s.len() - i,
{
    if i < 0 || i >= s.len() {
        None
    } else if s[i].1.port != 0 {
        Some(i)
    } else {
        node_from(s, i + 1)
    }
}

/// The position of the node that stores a file with key `fh`, if one is
/// chosen.
pub open spec fn upload_target(s: TableView, fh: Seq<char>) -> Option<int> {
    match upload_stop_from(s, fh, 0) {
        Some(j) => if s[j].0 == fh {
            None
        } else {
            Some(j)
        },
        None => node_from(s, 0),
    }
}

/// `address:port` of a node.
pub open spec fn node_address(e: EntryView) -> Seq<char> {
    e.ip + ":"@ + decimal(e.port as nat)
}

/// The entry that records a file stored on `node`, uploaded from `uploader`.
pub open spec fn stored_entry(node: EntryView, uploader: Seq<char>) -> EntryView {
    EntryView { ip: node_address(node), port: 0, node_name: uploader }
}

/// The table after a file with key `fh` is uploaded from `uploader`.
pub open spec fn upload_table(s: TableView, fh: Seq<char>, uploader: Seq<char>) -> TableView {
    match upload_target(s, fh) {
        Some(j) => insert_sorted(s, fh, stored_entry(s[j].1, uploader)),
        None => s,
    }
}

/// Whether `r` is the route of an upload of `file_name` with contents `data`
/// from `uploader`, under key `fh`, into table `s`: nothing where the table
/// records the file already, the hex data to the chosen node below the key,
/// the data as text (where it is UTF-8) to the first node, or no node at all.
pub open spec fn upload_route_is(
    s: TableView,
    fh: Seq<char>,
    uploader: Seq<char>,
    file_name: Seq<char>,
    data: Seq<u8>,
    r: UploadRoute,
) -> bool {
    match upload_stop_from(s, fh, 0) {
        Some(j) => if s[j].0 == fh {
            r is AlreadyStored
        } else {
            &&& r matches UploadRoute::Forward { url, details }
            &&& url@ == node_address(s[j].1) + "/add-file"@
            &&& details@ == (uploader, file_name, hex_lower(data))
        },
        None => match node_from(s, 0) {
            Some(k) => {
                &&& r matches UploadRoute::Fallback { url, text_details }
                &&& url@ == "http://"@ + node_address(s[k].1) + "/add-file"@
                &&& text_details is Some <==> vstd::utf8::valid_utf8(data)
                &&& text_details matches Some(d) ==> d.scope@ == uploader && d.file_name@
                    == file_name && vstd::utf8::encode_utf8(d.data@) == data
            },
            None => r is NoStorageNode,
        },
    }
}

/// Calls `std::str::from_utf8`. Trusted: it succeeds exactly on valid UTF-8,
/// and then gives the text whose UTF-8 encoding is `data`.
#[verifier::external_body]
fn utf8_text(data: &[u8]) -> (r: Option<&str>)
    ensures
        r is Some <==> vstd::utf8::valid_utf8(data@),
        r matches Some(t) ==> vstd::utf8::encode_utf8(t@) == data@,
{
    std::str::from_utf8(data).ok()
}

fn address_of(e: &RouteEntry) -> (r: String)
    ensures
        r@ == node_address(e@),
{
    let mut a = String::from_str(e.ip.as_str());
    a.append(":");
    push_decimal(&mut a, e.port);
    a
}

fn stops_upload_at(table: &RoutingTable, i: usize, fh: &Vec<char>) -> (r: bool)
    requires
        i < table@.len(),
    ensures
        r == stops_upload(table@[i as int], fh@),
{
    let k = chars_of(table.key_at(i).as_str());
    chars_eq(&k, fh) || (table.entry_at(i).port != 0 && chars_lt(&k, fh))
}

/// Decides where the file with key `key`, uploaded from `uploader` under
/// `file_name` with contents `data`, is stored, and records it in the table.
///
/// The entries are scanned in key order; the scan stops at an entry that
/// holds `key` (the file is already recorded) or at a node whose key is below
/// `key` (the file goes there, its data in hex). Where the scan finds neither,
/// the file goes to the first node, its data as text. The table then records
/// the file under `key`, at `address:port` of the chosen node.
pub fn route_upload_keyed(
    table: &mut RoutingTable,
    key: &str,
    uploader: &str,
    file_name: &str,
    data: &[u8],
) -> (r: UploadRoute)
    requires
        old(table).wf(),
    ensures
        final(table).wf(),
        final(table)@ == upload_table(old(table)@, key@, uploader@),
        upload_route_is(old(table)@, key@, uploader@, file_name@, data@, r),
{
    let ghost s = table@;
    let fh = chars_of(key);
    let n = table.len();
    let mut i: usize = 0;
    while i < n && !stops_upload_at(table, i, &fh)
        invariant
            s == table@,
            n == s.len(),
            fh@ == key@,
            i <= n,
            upload_stop_from(s, key@, 0) == upload_stop_from(s, key@, i as int),
        decreases n - i,
    {
        i = i + 1;
    }
    if i < n {
        let k = chars_of(table.key_at(i).as_str());
        if chars_eq(&k, &fh) {
            return UploadRoute::AlreadyStored;
        }
        let address = address_of(table.entry_at(i));
        let mut url = address.clone();
        url.append("/add-file");
        let details = FileDetails {
            scope: String::from_str(uploader),
            file_name: String::from_str(file_name),
            data: hex_encode(data),
        };
        let record = RouteEntry { ip: address, port: 0, node_name: String::from_str(uploader) };
        table.insert(String::from_str(key), record);
        UploadRoute::Forward { url, details }
    } else {
        let mut k: usize = 0;
        while k < n && table.entry_at(k).port == 0
            invariant
                s == table@,
                n == s.len(),
                k <= n,
                node_from(s, 0) == node_from(s, k as int),
            decreases n - k,
        {
            k = k + 1;
        }
        if k == n {
            return UploadRoute::NoStorageNode;
        }
        let address = address_of(table.entry_at(k));
        let mut url = String::from_str("http://");
        url.append(address.as_str());
        url.append("/add-file");
        let text_details = match utf8_text(data) {
            Some(text) => Some(
                FileDetails {
                    scope: String::from_str(uploader),
                    file_name: String::from_str(file_name),
                    data: String::from_str(text),
                },
            ),
            None => None,
        };
        let record = RouteEntry { ip: address, port: 0, node_name: String::from_str(uploader) };
        table.insert(String::from_str(key), record);
        UploadRoute::Fallback { url, text_details }
    }
}

/// A file `file_name` with contents `data` is uploaded from `uploader`: its
/// key is that of `uploader` followed by `file_name`.
pub fn route_upload(table: &mut RoutingTable, uploader: &str, file_name: &str, data: &[u8]) -> (r:
    UploadRoute)
    requires
        old(table).wf(),
    ensures
        final(table).wf(),
        final(table)@ == upload_table(old(table)@, route_key_of(uploader@, file_name@), uploader@),
        upload_route_is(
            old(table)@,
            route_key_of(uploader@, file_name@),
            uploader@,
            file_name@,
            data@,
            r,
        ),
        is_route_key(route_key_of(uploader@, file_name@)),
{
    let key = route_key(uploader, file_name);
    route_upload_keyed(table, key.as_str(), uploader, file_name, data)
}

// ---------------------------------------------------------------------------
// Fetching a file
// ---------------------------------------------------------------------------

/// Where a file recorded as `e` is fetched from.
pub open spec fn fetch_url(e: EntryView) -> Seq<char> {
    "http://"@ + e.ip + "/get-file"@
}

/// The file name of a request: the given one, else `"Default.txt"`.
pub open spec fn requested_file(params: FileParams) -> Seq<char> {
    match params.file_name {
        Some(f) => f@,
        None => "Default.txt"@,
    }
}

/// The uploader named in a request: the given one, else `"Default.txt"`.
pub open spec fn requested_scope(params: FileParams) -> Seq<char> {
    match params.node_name {
        Some(n) => n@,
        None => "Default.txt"@,
    }
}

/// The request for the file recorded under `key`, named `file_name`.
pub fn locate_file_keyed(table: &RoutingTable, key: &str, file_name: &str) -> (r: Option<FileFetch>)
    requires
        table.wf(),
    ensures
        match lookup(table@, key@) {
            None => r is None,
            Some(e) => {
                &&& r matches Some(f)
                &&& f.url@ == fetch_url(e)
                &&& f.details@ == (e.node_name, file_name@, "None"@)
            },
        },
{
    match table.get(key) {
        None => None,
        Some(e) => {
            let mut url = String::from_str("http://");
            url.append(e.ip.as_str());
            url.append("/get-file");
            let details = FileDetails {
                scope: e.node_name.clone(),
                file_name: String::from_str(file_name),
                data: String::from_str("None"),
            };
            Some(FileFetch { url, details })
        },
    }
}

/// The request for the file that `params` names: its key is that of the
/// uploader followed by the file name.
pub fn locate_file(table: &RoutingTable, params: &FileParams) -> (r: Option<FileFetch>)
    requires
        table.wf(),
    ensures
        match lookup(table@, route_key_of(requested_scope(*params), requested_file(*params))) {
            None => r is None,
            Some(e) => {
                &&& r matches Some(f)
                &&& f.url@ == fetch_url(e)
                &&& f.details@ == (e.node_name, requested_file(*params), "None"@)
            },
        },
        is_route_key(route_key_of(requested_scope(*params), requested_file(*params))),
{
    let file_name = match &params.file_name {
        Some(f) => f.clone(),
        None => String::from_str("Default.txt"),
    };
    let scope = match &params.node_name {
        Some(n) => n.clone(),
        None => String::from_str("Default.txt"),
    };
    let key = route_key(scope.as_str(), file_name.as_str());
    locate_file_keyed(table, key.as_str(), file_name.as_str())
}

// ---------------------------------------------------------------------------
// The directory structure
// ---------------------------------------------------------------------------

/// The entries of `s` that record stored files (port 0), in order.
pub open spec fn stored_files(s: TableView) -> TableView
    decreases s.len(),
{
    if s.len() == 0 {
        s
    } else if s.last().1.port == 0 {
        stored_files(s.drop_last()).push(s.last())
    } else {
        stored_files(s.drop_last())
    }
}

proof fn lemma_stored_files(s: TableView)
    requires
        keys_sorted(s),
    ensures
        keys_sorted(stored_files(s)),
        forall|i: int| 0 <= i < stored_files(s).len() ==> exists|j: int|
            0 <= j < s.len() && s[j] == #[trigger] stored_files(s)[i],
    decreases s.len(),
{
    if s.len() > 0 {
        let t = s.drop_last();
        assert(keys_sorted(t));
        lemma_stored_files(t);
        if s.last().1.port == 0 {
            let f = stored_files(t);
            assert forall|i: int| 0 <= i < f.len() implies text_lt(#[trigger] f[i].0, s.last().0) by {
                let j = choose|j: int| 0 <= j < t.len() && t[j] == f[i];
                assert(s[j] == t[j]);
                assert(s[s.len() - 1] == s.last());
            }
            assert forall|i: int| 0 <= i < f.push(s.last()).len() implies exists|j: int|
                0 <= j < s.len() && s[j] == #[trigger] f.push(s.last())[i] by {
                if i < f.len() {
                    let j = choose|j: int| 0 <= j < t.len() && t[j] == f[i];
                    assert(s[j] == t[j]);
                } else {
                    assert(s[s.len() - 1] == f.push(s.last())[i]);
                }
            }
        } else {
            let f = stored_files(t);
            assert forall|i: int| 0 <= i < f.len() implies exists|j: int|
                0 <= j < s.len() && s[j] == #[trigger] f[i] by {
                let j = choose|j: int| 0 <= j < t.len() && t[j] == f[i];
                assert(s[j] == t[j]);
            }
        }
    }
}

/// The entries of the table that record stored files, in key order.
pub fn get_dir_structure(table: &RoutingTable) -> (r: RoutingTable)
    requires
        table.wf(),
    ensures
        r.wf(),
        r@ == stored_files(table@),
{
    let ghost s = table@;
    let n = table.len();
    let mut out = RoutingTable::new();
    let mut i: usize = 0;
    while i < n
        invariant
            s == table@,
            keys_sorted(s),
            n == s.len(),
            i <= n,
            out.wf(),
            out@ == stored_files(s.take(i as int)),
        decreases n - i,
    {
        proof {
            assert(s.take(i + 1).drop_last() =~= s.take(i as int));
            assert(s.take(i + 1).last() == s[i as int]);
        }
        let e = table.entry_at(i);
        if e.port == 0 {
            proof {
                assert(keys_sorted(s.take(i as int)));
                lemma_stored_files(s.take(i as int));
                assert forall|m: int| 0 <= m < out@.len() implies text_lt(#[trigger] out@[m].0, s[i as int].0) by {
                    let j = choose|j: int| 0 <= j < s.take(i as int).len() && s.take(i as int)[j] == out@[m];
                    assert(s[j] == s.take(i as int)[j]);
                }
            }
            out.push_last(table.key_at(i).clone(), e.duplicate());
        }
        i = i + 1;
    }
    assert(s.take(n as int) =~= s);
    out
}

// ---------------------------------------------------------------------------
// Reading the routing table
// ---------------------------------------------------------------------------

/// The field separator of the routing table file.
pub open spec fn field_separator() -> Seq<char> {
    seq!['|']
}

/// A line `key|ip|port|node_name` of the routing table file.
pub open spec fn route_line(line: Seq<char>) -> Result<(Seq<char>, EntryView), RouteLineError> {
    let parts = split_all(line, field_separator());
    if parts.len() != 4 {
        Err(RouteLineError::IncorrectTable)
    } else {
        match parse_unsigned(parts[2], u32::MAX as int) {
            Err(e) => Err(RouteLineError::BadPort(e)),
            Ok(v) => Ok((parts[0], EntryView { ip: parts[1], port: v as u32, node_name: parts[3] })),
        }
    }
}

/// The table `s` with the lines stored in turn, or the first refusal.
pub open spec fn load_lines(lines: Seq<Seq<char>>, s: TableView) -> Result<TableView, RouteLineError>
    decreases lines.len(),
{
    if lines.len() == 0 {
        Ok(s)
    } else {
        match route_line(lines[0]) {
            Err(e) => Err(e),
            Ok((k, e)) => load_lines(lines.drop_first(), insert_sorted(s, k, e)),
        }
    }
}

/// Reads one line of the routing table file.
pub fn parse_route_line(line: &str) -> (r: Result<(String, RouteEntry), RouteLineError>)
    ensures
        match r {
            Ok((k, e)) => route_line(line@) == Ok::<(Seq<char>, EntryView), RouteLineError>((k@, e@)),
            Err(e) => route_line(line@) == Err::<(Seq<char>, EntryView), RouteLineError>(e),
        },
{
    proof {
        reveal_strlit("|");
    }
    assert("|"@ =~= field_separator());
    let parts = split_pieces(line, "|");
    assert(parts@.map_values(|t: String| t@).len() == parts@.len());
    if parts.len() != 4 {
        return Err(RouteLineError::IncorrectTable);
    }
    let ghost views = parts@.map_values(|t: String| t@);
    assert(views[2] == parts@[2]@);
    match parse_u32(parts[2].as_str()) {
        Err(e) => Err(RouteLineError::BadPort(e)),
        Ok(port) => {
            assert(views[0] == parts@[0]@ && views[1] == parts@[1]@ && views[3] == parts@[3]@);
            let entry = RouteEntry { ip: parts[1].clone(), port, node_name: parts[3].clone() };
            Ok((parts[0].clone(), entry))
        },
    }
}

/// The views of some lines.
pub open spec fn line_views(lines: Seq<String>) -> Seq<Seq<char>> {
    lines.map_values(|l: String| l@)
}

/// Reads the routing table from the lines of its file; later lines replace
/// earlier ones with the same key.
pub fn load_routing_table(lines: &Vec<String>) -> (r: Result<RoutingTable, RouteLineError>)
    ensures
        match r {
            Ok(t) => t.wf() && load_lines(line_views(lines@), Seq::empty()) == Ok::<
                TableView,
                RouteLineError,
            >(t@),
            Err(e) => load_lines(line_views(lines@), Seq::empty()) == Err::<
                TableView,
                RouteLineError,
            >(e),
        },
{
    let mut table = RoutingTable::new();
    let mut i: usize = 0;
    assert(line_views(lines@).skip(0) =~= line_views(lines@));
    while i < lines.len()
        invariant
            i <= lines.len(),
            table.wf(),
            load_lines(line_views(lines@), Seq::empty()) == load_lines(
                line_views(lines@).skip(i as int),
                table@,
            ),
        decreases lines.len() - i,
    {
        let ghost rest = line_views(lines@).skip(i as int);
        assert(rest[0] == lines@[i as int]@);
        assert(rest.drop_first() =~= line_views(lines@).skip(i + 1));
        match parse_route_line(lines[i].as_str()) {
            Err(e) => {
                return Err(e);
            },
            Ok((k, e)) => {
                table.insert(k, e);
            },
        }
        i = i + 1;
    }
    assert(line_views(lines@).skip(i as int) =~= Seq::<Seq<char>>::empty());
    Ok(table)
}

// ---------------------------------------------------------------------------
// Laws of the routing decisions
// ---------------------------------------------------------------------------

proof fn lemma_upload_stop(s: TableView, fh: Seq<char>, i: int)
    requires
        0 <= i,
    ensures
        upload_stop_from(s, fh, i) matches Some(j) ==> i <= j < s.len() && stops_upload(s[j], fh),
        upload_stop_from(s, fh, i) is None ==> forall|m: int|
            i <= m < s.len() ==> !stops_upload(#[trigger] s[m], fh),
    decreases s.len() - i,
{
    if i < s.len() && !stops_upload(s[i], fh) {
        lemma_upload_stop(s, fh, i + 1);
    }
}

proof fn lemma_node_from(s: TableView, i: int)
    requires
        0 <= i,
    ensures
        node_from(s, i) matches Some(j) ==> i <= j < s.len() && s[j].1.port != 0,
    decreases s.len() - i,
{
    if i < s.len() && s[i].1.port == 0 {
        lemma_node_from(s, i + 1);
    }
}

/// A node that joins is recorded under its key; a second request to join
/// with the same key, whatever its address and port, changes nothing and is
/// told that the node is already on the network.
pub proof fn lemma_join_twice(
    s: TableView,
    key: Seq<char>,
    ip: Seq<char>,
    port: Seq<char>,
    ip2: Seq<char>,
    port2: Seq<char>,
)
    requires
        keys_sorted(s),
    ensures
        keys_sorted(join_outcome(s, key, ip, port).0),
        lookup(join_outcome(s, key, ip, port).0, key) is Some,
        join_outcome(join_outcome(s, key, ip, port).0, key, ip2, port2) == (
            join_outcome(s, key, ip, port).0,
            already_joined_reply(),
        ),
{
    lemma_insert_sorted(s, key, join_entry(ip, port));
}

/// What an upload records is what a fetch of the same file, named by its
/// uploader and file name, finds: the entry that points at the node the file
/// was sent to. A file already recorded stays as it was and is found too; an
/// upload refused for want of a node concerns a file that is not recorded.
pub proof fn lemma_upload_then_fetch(s: TableView, uploader: Seq<char>, file_name: Seq<char>)
    requires
        keys_sorted(s),
    ensures
        ({
            let fh = route_key_of(uploader, file_name);
            let t = upload_table(s, fh, uploader);
            &&& keys_sorted(t)
            &&& upload_target(s, fh) matches Some(j) ==> lookup(t, fh) == Some(
                stored_entry(s[j].1, uploader),
            )
            &&& upload_target(s, fh) matches Some(j) ==> fetch_url(stored_entry(s[j].1, uploader))
                == "http://"@ + node_address(s[j].1) + "/get-file"@
            &&& upload_stop_from(s, fh, 0) matches Some(j) ==> (s[j].0 == fh ==> t == s && lookup(
                t,
                fh,
            ) == Some(s[j].1))
            &&& (upload_target(s, fh) is None && !(upload_stop_from(s, fh, 0) is Some)) ==> t == s
                && lookup(t, fh) is None
        }),
{
    let fh = route_key_of(uploader, file_name);
    lemma_upload_stop(s, fh, 0);
    lemma_node_from(s, 0);
    match upload_target(s, fh) {
        Some(j) => {
            lemma_insert_sorted(s, fh, stored_entry(s[j].1, uploader));
        },
        None => {},
    }
    match upload_stop_from(s, fh, 0) {
        Some(j) => {
            if s[j].0 == fh {
                lemma_lookup_at(s, fh, j);
            }
        },
        None => {
            lemma_lookup_none(s, fh);
            assert forall|m: int| 0 <= m < s.len() implies s[m].0 != fh by {
                assert(!stops_upload(s[m], fh));
            }
        },
    }
}

proof fn lemma_stored_files_has(s: TableView, j: int)
    requires
        0 <= j < s.len(),
        s[j].1.port == 0,
    ensures
        exists|i: int| 0 <= i < stored_files(s).len() && stored_files(s)[i] == s[j],
    decreases s.len(),
{
    let t = s.drop_last();
    if j == s.len() - 1 {
        let f = stored_files(s);
        assert(f == stored_files(t).push(s.last()));
        let i = f.len() - 1;
        assert(0 <= i < f.len() && f[i] == s[j]);
    } else {
        assert(t[j] == s[j]);
        lemma_stored_files_has(t, j);
        let i = choose|i: int| 0 <= i < stored_files(t).len() && stored_files(t)[i] == t[j];
        if s.last().1.port == 0 {
            assert(stored_files(s) == stored_files(t).push(s.last()));
            assert(stored_files(s)[i] == stored_files(t)[i]);
        } else {
            assert(stored_files(s) == stored_files(t));
        }
        assert(0 <= i < stored_files(s).len() && stored_files(s)[i] == s[j]);
    }
}

proof fn lemma_stored_files_ports(s: TableView)
    ensures
        forall|i: int| 0 <= i < stored_files(s).len() ==> (#[trigger] stored_files(s)[i]).1.port
            == 0,
    decreases s.len(),
{
    if s.len() > 0 {
        let t = s.drop_last();
        lemma_stored_files_ports(t);
        if s.last().1.port == 0 {
            assert(stored_files(s) == stored_files(t).push(s.last()));
            assert forall|i: int| 0 <= i < stored_files(s).len() implies (
            #[trigger] stored_files(s)[i]).1.port == 0 by {
                if i < stored_files(t).len() {
                    assert(stored_files(s)[i] == stored_files(t)[i]);
                }
            }
        } else {
            assert(stored_files(s) == stored_files(t));
        }
    }
}

/// The directory structure holds, under each key, exactly what the table
/// holds there when that entry records a stored file, and nothing else.
pub proof fn lemma_dir_structure_lookup(s: TableView, k: Seq<char>)
    requires
        keys_sorted(s),
    ensures
        lookup(stored_files(s), k) == (if lookup(s, k) matches Some(e) && e.port == 0 {
            lookup(s, k)
        } else {
            None
        }),
{
    let f = stored_files(s);
    lemma_stored_files(s);
    lemma_stored_files_ports(s);
    lemma_lookup_none(s, k);
    lemma_lookup_none(f, k);
    if lookup(s, k) is Some {
        let j = choose|j: int| 0 <= j < s.len() && s[j].0 == k;
        lemma_lookup_at(s, k, j);
        if s[j].1.port == 0 {
            lemma_stored_files_has(s, j);
            let i = choose|i: int| 0 <= i < f.len() && f[i] == s[j];
            lemma_lookup_at(f, k, i);
        } else {
            assert forall|i: int| 0 <= i < f.len() implies f[i].0 != k by {
                let m = choose|m: int| 0 <= m < s.len() && s[m] == f[i];
                if f[i].0 == k {
                    lemma_lookup_at(s, k, m);
                }
            }
        }
    } else {
        assert forall|i: int| 0 <= i < f.len() implies f[i].0 != k by {
            let m = choose|m: int| 0 <= m < s.len() && s[m] == f[i];
        }
    }
}

/// After an upload that chose a node, the directory structure lists the
/// file, pointing at that node.
pub proof fn lemma_upload_listed(s: TableView, uploader: Seq<char>, file_name: Seq<char>)
    requires
        keys_sorted(s),
    ensures
        ({
            let fh = route_key_of(uploader, file_name);
            upload_target(s, fh) matches Some(j) ==> lookup(
                stored_files(upload_table(s, fh, uploader)),
                fh,
            ) == Some(stored_entry(s[j].1, uploader))
        }),
{
    let fh = route_key_of(uploader, file_name);
    lemma_upload_then_fetch(s, uploader, file_name);
    if upload_target(s, fh) is Some {
        lemma_dir_structure_lookup(upload_table(s, fh, uploader), fh);
    }
}

// ---------------------------------------------------------------------------
// What joining, addressing and loading keep
// ---------------------------------------------------------------------------

/// Admitting a node touches its own key only: every other key keeps its
/// entry. A node not yet in the table is recorded at its address, with its
/// port text read as a `u32` (8000 where it is none) and the name `test`, and
/// the table grows by one; a node already in it changes nothing.
pub proof fn lemma_join_records_only_its_key(
    s: TableView,
    key: Seq<char>,
    ip: Seq<char>,
    port: Seq<char>,
)
    requires
        keys_sorted(s),
    ensures
        keys_sorted(join_outcome(s, key, ip, port).0),
        forall|k2: Seq<char>|
            k2 != key ==> lookup(#[trigger] join_outcome(s, key, ip, port).0, k2) == lookup(s, k2),
        lookup(s, key) is None ==> lookup(join_outcome(s, key, ip, port).0, key) == Some(
            EntryView {
                ip,
                port: match parse_unsigned(port, u32::MAX as int) {
                    Ok(v) => v as u32,
                    Err(_) => 8000u32,
                },
                node_name: "test"@,
            },
        ),
        lookup(s, key) is None ==> join_outcome(s, key, ip, port).0.len() == s.len() + 1,
        lookup(s, key) is Some ==> join_outcome(s, key, ip, port).0 == s,
{
    lemma_insert_sorted(s, key, join_entry(ip, port));
}

/// The address of a node is its address text, `:`, and decimal text that
/// reads back as its port, whatever the port.
pub proof fn lemma_node_address_parts(e: EntryView)
    ensures
        node_address(e).len() > e.ip.len(),
        node_address(e).take(e.ip.len() as int) == e.ip,
        node_address(e)[e.ip.len() as int] == ':',
        parse_unsigned(node_address(e).skip(e.ip.len() + 1int), u32::MAX as int) == Ok::<
            int,
            IntErrorKind,
        >(e.port as int),
{
    reveal_strlit(":");
    crate::decimal::lemma_decimal(e.port as nat);
    crate::decimal::lemma_parse_decimal(e.port as nat, u32::MAX as int);
    let a = node_address(e);
    assert(a.take(e.ip.len() as int) =~= e.ip);
    assert(a.skip(e.ip.len() + 1int) =~= decimal(e.port as nat));
}

/// Whether `line` is a table line that names the key `k`.
pub open spec fn line_names(line: Seq<char>, k: Seq<char>) -> bool {
    route_line(line) matches Ok((k2, _)) && k2 == k
}

/// Loading succeeds exactly when every line is a table line, and fails with
/// the fault of the first line that is not. After loading, the entry under a
/// key is that of the last line naming it, whatever its port; keys that no
/// line names keep what `s` held, and nothing else is in the table.
pub proof fn lemma_load_records_every_line(lines: Seq<Seq<char>>, s: TableView)
    requires
        keys_sorted(s),
    ensures
        load_lines(lines, s) is Ok <==> forall|i: int| 0 <= i < lines.len() ==> route_line(
            #[trigger] lines[i],
        ) is Ok,
        load_lines(lines, s) matches Err(err) ==> exists|i: int|
            0 <= i < lines.len() && route_line(#[trigger] lines[i]) == Err::<
                (Seq<char>, EntryView),
                RouteLineError,
            >(err) && forall|j: int| 0 <= j < i ==> route_line(#[trigger] lines[j]) is Ok,
        load_lines(lines, s) matches Ok(t) ==> {
            &&& keys_sorted(t)
            &&& forall|i: int|
                0 <= i < lines.len() ==> (route_line(#[trigger] lines[i]) matches Ok((k, e)) ==> ((
                forall|j: int| i < j < lines.len() ==> !line_names(#[trigger] lines[j], k))
                    ==> lookup(t, k) == Some(e)))
            &&& forall|k: Seq<char>|
                (forall|i: int| 0 <= i < lines.len() ==> !line_names(#[trigger] lines[i], k))
                    ==> lookup(t, k) == lookup(s, k)
        },
    decreases lines.len(),
{
    if lines.len() > 0 {
        let rest = lines.drop_first();
        assert forall|i: int| 0 <= i < rest.len() implies rest[i] == lines[i + 1] by {}
        match route_line(lines[0]) {
            Err(err) => {
                assert(route_line(lines[0]) == Err::<(Seq<char>, EntryView), RouteLineError>(err));
            },
            Ok((k0, e0)) => {
                let s2 = insert_sorted(s, k0, e0);
                lemma_insert_sorted(s, k0, e0);
                lemma_load_records_every_line(rest, s2);
                if load_lines(rest, s2) is Ok {
                    assert forall|i: int| 0 <= i < lines.len() implies route_line(
                        #[trigger] lines[i],
                    ) is Ok by {
                        if i > 0 {
                            assert(rest[i - 1] == lines[i]);
                        }
                    }
                } else {
                    let i = choose|i: int| 0 <= i < rest.len() && !(route_line(#[trigger] rest[i]) is Ok);
                    assert(rest[i] == lines[i + 1]);
                }
                match load_lines(rest, s2) {
                    Err(err) => {
                        let i = choose|i: int|
                            0 <= i < rest.len() && route_line(#[trigger] rest[i]) == Err::<
                                (Seq<char>, EntryView),
                                RouteLineError,
                            >(err) && forall|j: int| 0 <= j < i ==> route_line(#[trigger] rest[j]) is Ok;
                        assert(rest[i] == lines[i + 1]);
                        assert forall|j: int| 0 <= j < i + 1 implies route_line(#[trigger] lines[j]) is Ok by {
                            if j > 0 {
                                assert(rest[j - 1] == lines[j]);
                            }
                        }
                    },
                    Ok(t) => {
                        assert forall|i: int|
                            0 <= i < lines.len() implies (route_line(#[trigger] lines[i]) matches Ok((k, e)) ==> ((
                            forall|j: int| i < j < lines.len() ==> !line_names(#[trigger] lines[j], k))
                                ==> lookup(t, k) == Some(e))) by {
                            if route_line(lines[i]) is Ok {
                                let (k, e) = route_line(lines[i])->Ok_0;
                                if forall|j: int| i < j < lines.len() ==> !line_names(#[trigger] lines[j], k) {
                                    if i > 0 {
                                        assert(rest[i - 1] == lines[i]);
                                        assert forall|j: int| i - 1 < j < rest.len() implies !line_names(
                                            #[trigger] rest[j],
                                            k,
                                        ) by {
                                            assert(rest[j] == lines[j + 1]);
                                        }
                                    } else {
                                        assert forall|j: int| 0 <= j < rest.len() implies !line_names(
                                            #[trigger] rest[j],
                                            k,
                                        ) by {
                                            assert(rest[j] == lines[j + 1]);
                                        }
                                    }
                                }
                            }
                        }
                        assert forall|k: Seq<char>|
                            (forall|i: int| 0 <= i < lines.len() ==> !line_names(#[trigger] lines[i], k))
                                implies lookup(t, k) == lookup(s, k) by {
                            assert(!line_names(lines[0], k));
                            assert forall|j: int| 0 <= j < rest.len() implies !line_names(
                                #[trigger] rest[j],
                                k,
                            ) by {
                                assert(rest[j] == lines[j + 1]);
                            }
                        }
                    },
                }
            },
        }
    }
}

} // verus!
