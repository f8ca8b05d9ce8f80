//! `porta listeners`: the listening TCP sockets that the operating system
//! reports, filtered by port, ordered by a column and reported without
//! duplicates, with the requested ports that nothing listens on. Asking the
//! operating system happens outside the library; its answer comes in as
//! plain values.
use vstd::prelude::*;
use vstd::string::*;

use crate::paths::{lemma_text_less_order, lemma_text_less_total, text_less, text_order, Order};
use crate::service::{contains_port, insert_sorted_unique, lemma_increasing_no_duplicates};
use crate::socket::strictly_increasing;
use crate::text::chars_of;

verus! {

/// The column that orders the listeners.
#[derive(Clone, Copy, Debug, PartialEq, Eq, Structural)]
pub enum ListenerOrder {
    Port,
    Address,
    Family,
    Pid,
    Process,
}

#[derive(Clone, Copy, Debug, PartialEq, Eq, Structural)]
pub enum AddressFamily {
    Ipv4,
    Ipv6,
}

/// A socket as the operating system reports it.
#[derive(Debug)]
pub struct ObservedSocket {
    pub port: u16,
    /// The address as a number; an IPv4 address fills the low 32 bits.
    pub address: u128,
    pub family: AddressFamily,
    pub pid: u32,
    pub process: String,
    /// Whether the socket is a TCP socket.
    pub tcp: bool,
    /// Whether the socket is in the listening state.
    pub listening: bool,
}

/// A listening TCP socket and the process that owns it.
#[derive(Debug)]
pub struct ListenerEntry {
    pub port: u16,
    /// The address as a number; an IPv4 address fills the low 32 bits.
    pub address: u128,
    pub family: AddressFamily,
    pub pid: u32,
    pub process: String,
}

pub struct SocketModel {
    pub port: u16,
    pub address: u128,
    pub family: AddressFamily,
    pub pid: u32,
    pub process: Seq<char>,
    pub tcp: bool,
    pub listening: bool,
}

pub struct ListenerModel {
    pub port: u16,
    pub address: u128,
    pub family: AddressFamily,
    pub pid: u32,
    pub process: Seq<char>,
}

impl View for ObservedSocket {
    type V = SocketModel;

    open spec fn view(&self) -> SocketModel {
        SocketModel {
            port: self.port,
            address: self.address,
            family: self.family,
            pid: self.pid,
            process: self.process@,
            tcp: self.tcp,
            listening: self.listening,
        }
    }
}

impl View for ListenerEntry {
    type V = ListenerModel;

    open spec fn view(&self) -> ListenerModel {
        ListenerModel {
            port: self.port,
            address: self.address,
            family: self.family,
            pid: self.pid,
            process: self.process@,
        }
    }
}

/// What `porta listeners` answers.
#[derive(Debug)]
pub struct ListenersResult {
    pub listeners: Vec<ListenerEntry>,
    pub missing_ports: Vec<u16>,
}

pub open spec fn socket_models(sockets: Seq<ObservedSocket>) -> Seq<SocketModel> {
    sockets.map_values(|s: ObservedSocket| s@)
}

pub open spec fn listener_models(entries: Seq<ListenerEntry>) -> Seq<ListenerModel> {
    entries.map_values(|e: ListenerEntry| e@)
}

// ---------------------------------------------------------------------
// Order
// ---------------------------------------------------------------------
pub open spec fn family_rank(family: AddressFamily) -> int {
    match family {
        AddressFamily::Ipv4 => 0,
        AddressFamily::Ipv6 => 1,
    }
}

/// -1, 0 or 1 as `a` is below, at or above `b`.
pub open spec fn order_int(a: int, b: int) -> int {
    if a < b {
        -1
    } else if a > b {
        1
    } else {
        0
    }
}

/// -1, 0 or 1 as text `a` comes before, equals or comes after `b`.
pub open spec fn order_text(a: Seq<char>, b: Seq<char>) -> int {
    if a == b {
        0
    } else if text_less(a, b) {
        -1
    } else {
        1
    }
}

/// Addresses order IPv4 before IPv6, then numerically.
pub open spec fn order_address(a: ListenerModel, b: ListenerModel) -> int {
    let family = order_int(family_rank(a.family), family_rank(b.family));
    if family != 0 {
        family
    } else {
        order_int(a.address as int, b.address as int)
    }
}

/// The requested column.
pub open spec fn order_primary(column: ListenerOrder, a: ListenerModel, b: ListenerModel) -> int {
    match column {
        ListenerOrder::Port => order_int(a.port as int, b.port as int),
        ListenerOrder::Address => order_address(a, b),
        ListenerOrder::Family => order_int(family_rank(a.family), family_rank(b.family)),
        ListenerOrder::Pid => order_int(a.pid as int, b.pid as int),
        ListenerOrder::Process => order_text(a.process, b.process),
    }
}

/// The canonical cascade: port, family, address, PID, then process.
pub open spec fn order_cascade(a: ListenerModel, b: ListenerModel) -> int {
    let port = order_int(a.port as int, b.port as int);
    let family = order_int(family_rank(a.family), family_rank(b.family));
    let address = order_int(a.address as int, b.address as int);
    let pid = order_int(a.pid as int, b.pid as int);
    if port != 0 {
        port
    } else if family != 0 {
        family
    } else if address != 0 {
        address
    } else if pid != 0 {
        pid
    } else {
        order_text(a.process, b.process)
    }
}

/// The requested column first, then the canonical cascade, which compares
/// every field.
pub open spec fn order_entries(column: ListenerOrder, a: ListenerModel, b: ListenerModel) -> int {
    let primary = order_primary(column, a, b);
    if primary != 0 {
        primary
    } else {
        order_cascade(a, b)
    }
}

pub open spec fn entry_before(column: ListenerOrder, a: ListenerModel, b: ListenerModel) -> bool {
    order_entries(column, a, b) < 0
}

/// Entries in strictly increasing order, so without repeats.
pub open spec fn strictly_ordered(column: ListenerOrder, entries: Seq<ListenerModel>) -> bool {
    forall|i: int, j: int|
        0 <= i < j < entries.len() ==> entry_before(column, #[trigger] entries[i], #[trigger] entries[j])
}

/// The entry order is a strict total order whose ties are equal entries.
pub proof fn lemma_entry_order(column: ListenerOrder, a: ListenerModel, b: ListenerModel, c: ListenerModel)
    ensures
        order_entries(column, a, b) == -order_entries(column, b, a),
        order_entries(column, a, b) == 0 <==> a == b,
        entry_before(column, a, b) && entry_before(column, b, c) ==> entry_before(column, a, c),
{
    lemma_text_less_total(a.process, b.process);
    lemma_text_less_total(b.process, c.process);
    lemma_text_less_total(a.process, c.process);
    lemma_text_less_order(a.process, b.process, c.process);
    lemma_text_less_order(b.process, a.process, c.process);
    lemma_text_less_order(a.process, c.process, b.process);
    if a.family != b.family {
        assert(family_rank(a.family) != family_rank(b.family));
    }
}

/// `x` comes before `y` in code-point order: at the first position where
/// they differ, `x` has the lower code point, or `x` is a proper prefix of `y`.
pub open spec fn code_points_before(x: Seq<char>, y: Seq<char>) -> bool {
    exists|k: int|
        0 <= k <= x.len() && k <= y.len() && #[trigger] x.take(k) == y.take(k) && ((k < x.len() && k
            < y.len() && x[k] < y[k]) || (k == x.len() && k < y.len()))
}

/// `a` comes before `b` by the value of `column` alone: a lower port or
/// PID, IPv4 before IPv6, an address by family and then numerically, a
/// process name by code points.
pub open spec fn key_before(column: ListenerOrder, a: ListenerModel, b: ListenerModel) -> bool {
    match column {
        ListenerOrder::Port => a.port < b.port,
        ListenerOrder::Pid => a.pid < b.pid,
        ListenerOrder::Family => a.family == AddressFamily::Ipv4 && b.family == AddressFamily::Ipv6,
        ListenerOrder::Address => (a.family == AddressFamily::Ipv4 && b.family == AddressFamily::Ipv6)
            || (a.family == b.family && a.address < b.address),
        ListenerOrder::Process => code_points_before(a.process, b.process),
    }
}

/// `a` and `b` have the same value in `column`.
pub open spec fn same_key(column: ListenerOrder, a: ListenerModel, b: ListenerModel) -> bool {
    match column {
        ListenerOrder::Port => a.port == b.port,
        ListenerOrder::Pid => a.pid == b.pid,
        ListenerOrder::Family => a.family == b.family,
        ListenerOrder::Address => a.family == b.family && a.address == b.address,
        ListenerOrder::Process => a.process == b.process,
    }
}

proof fn lemma_code_points_before(x: Seq<char>, y: Seq<char>, k: int)
    requires
        0 <= k <= x.len(),
        k <= y.len(),
        x.take(k) == y.take(k),
        (k < x.len() && k < y.len() && x[k] < y[k]) || (k == x.len() && k
            < y.len()),
    ensures
        text_less(x, y),
        x != y,
    decreases k,
{
    if k > 0 {
        assert(x[0] == x.take(k)[0]);
        assert(y[0] == y.take(k)[0]);
        assert(x.drop_first().take(k - 1) =~= x.take(k).drop_first());
        assert(y.drop_first().take(k - 1) =~= y.take(k).drop_first());
        if k < x.len() {
            assert(x.drop_first()[k - 1] == x[k]);
        }
        if k < y.len() {
            assert(y.drop_first()[k - 1] == y[k]);
        }
        lemma_code_points_before(x.drop_first(), y.drop_first(), k - 1);
        if x == y {
            assert(x.drop_first() == y.drop_first());
        }
    } else {
        if x.len() > 0 {
            assert(x[0] != y[0]);
        }
    }
}

/// The requested column decides the order wherever its values differ,
/// whatever the other fields hold: a lower port or PID, IPv4 before IPv6,
/// an address by family then numerically, and a process name before another
/// in code-point order put the entry first.
pub proof fn lemma_column_decides(column: ListenerOrder, a: ListenerModel, b: ListenerModel)
    ensures
        key_before(column, a, b) ==> entry_before(column, a, b),
        key_before(column, a, b) ==> !entry_before(column, b, a),
{
    if column == ListenerOrder::Process && key_before(column, a, b) {
        let k = choose|k: int|
            0 <= k <= a.process.len() && k <= b.process.len() && #[trigger] a.process.take(k)
                == b.process.take(k) && ((k < a.process.len() && k < b.process.len() && a.process[k] < b.process[k]) || (k == a.process.len() && k
                < b.process.len()));
        lemma_code_points_before(a.process, b.process, k);
        lemma_text_less_order(a.process, b.process, a.process);
    }
    lemma_entry_order(column, a, b, a);
}

/// Where the requested column ties, the order falls back to port, then
/// family (IPv4 first), then address, then PID, then process name in
/// code-point order.
pub proof fn lemma_ties_fall_back(column: ListenerOrder, a: ListenerModel, b: ListenerModel)
    requires
        same_key(column, a, b),
    ensures
        a.port < b.port ==> entry_before(column, a, b),
        a.port == b.port && a.family == AddressFamily::Ipv4 && b.family == AddressFamily::Ipv6
            ==> entry_before(column, a, b),
        a.port == b.port && a.family == b.family && a.address < b.address ==> entry_before(
            column,
            a,
            b,
        ),
        a.port == b.port && a.family == b.family && a.address == b.address && a.pid < b.pid
            ==> entry_before(column, a, b),
        a.port == b.port && a.family == b.family && a.address == b.address && a.pid == b.pid
            && code_points_before(a.process, b.process) ==> entry_before(column, a, b),
{
    if a.family != b.family {
        assert(family_rank(a.family) != family_rank(b.family));
    }
    if code_points_before(a.process, b.process) {
        let k = choose|k: int|
            0 <= k <= a.process.len() && k <= b.process.len() && #[trigger] a.process.take(k)
                == b.process.take(k) && ((k < a.process.len() && k < b.process.len() && a.process[k] < b.process[k]) || (k == a.process.len() && k
                < b.process.len()));
        lemma_code_points_before(a.process, b.process, k);
    }
}

/// In a listing ordered by `column`, no entry comes after one whose value in
/// that column it precedes: ports and PIDs never decrease, IPv6 never comes
/// before IPv4, and process names never go back in code-point order.
pub proof fn lemma_listing_follows_column(column: ListenerOrder, entries: Seq<ListenerModel>, i: int, j: int)
    requires
        strictly_ordered(column, entries),
        0 <= i < j < entries.len(),
    ensures
        !key_before(column, entries[j], entries[i]),
{
    assert(entry_before(column, entries[i], entries[j]));
    lemma_column_decides(column, entries[j], entries[i]);
}

// ---------------------------------------------------------------------
// Filtering
// ---------------------------------------------------------------------
/// A socket is shown when it is a listening TCP socket on a requested port;
/// no requested port means every port.
pub open spec fn socket_shown(socket: SocketModel, requested: Seq<u16>) -> bool {
    socket.tcp && socket.listening && (requested.len() == 0 || requested.contains(socket.port))
}

pub open spec fn entry_of(socket: SocketModel) -> ListenerModel {
    ListenerModel {
        port: socket.port,
        address: socket.address,
        family: socket.family,
        pid: socket.pid,
        process: socket.process,
    }
}

/// The entries of the shown sockets.
pub open spec fn shown_entries(sockets: Seq<SocketModel>, requested: Seq<u16>) -> Set<ListenerModel> {
    Set::new(
        |e: ListenerModel|
            exists|k: int|
                0 <= k < sockets.len() && socket_shown(sockets[k], requested) && #[trigger] entry_of(
                    sockets[k],
                ) == e,
    )
}

/// The requested ports without a shown listener.
pub open spec fn ports_not_listening(requested: Seq<u16>, entries: Set<ListenerModel>) -> Set<u16> {
    Set::new(
        |p: u16|
            requested.contains(p) && !exists|e: ListenerModel| #[trigger] entries.contains(e) && e.port == p,
    )
}

fn order_u128(a: u128, b: u128) -> (c: i8)
    ensures
        c == order_int(a as int, b as int),
{
    if a < b {
        -1
    } else if a > b {
        1
    } else {
        0
    }
}

fn rank(family: AddressFamily) -> (r: u128)
    ensures
        r == family_rank(family),
{
    match family {
        AddressFamily::Ipv4 => 0,
        AddressFamily::Ipv6 => 1,
    }
}

fn order_process(a: &String, b: &String) -> (c: i8)
    ensures
        c == order_text(a@, b@),
{
    let ca = chars_of(a.as_str());
    let cb = chars_of(b.as_str());
    match text_order(&ca, &cb) {
        Order::Less => -1,
        Order::Equal => 0,
        Order::Greater => 1,
    }
}

/// Compares two entries by `column`, then by the canonical cascade.
pub fn compare_entries(column: ListenerOrder, a: &ListenerEntry, b: &ListenerEntry) -> (c: i8)
    ensures
        c == order_entries(column, a@, b@),
{
    let family = order_u128(rank(a.family), rank(b.family));
    let primary = match column {
        ListenerOrder::Port => order_u128(a.port as u128, b.port as u128),
        ListenerOrder::Address => if family != 0 {
            family
        } else {
            order_u128(a.address, b.address)
        },
        ListenerOrder::Family => family,
        ListenerOrder::Pid => order_u128(a.pid as u128, b.pid as u128),
        ListenerOrder::Process => order_process(&a.process, &b.process),
    };
    if primary != 0 {
        return primary;
    }
    let port = order_u128(a.port as u128, b.port as u128);
    if port != 0 {
        return port;
    }
    if family != 0 {
        return family;
    }
    let address = order_u128(a.address, b.address);
    if address != 0 {
        return address;
    }
    let pid = order_u128(a.pid as u128, b.pid as u128);
    if pid != 0 {
        return pid;
    }
    order_process(&a.process, &b.process)
}

fn entry_from(socket: &ObservedSocket) -> (entry: ListenerEntry)
    ensures
        entry@ == entry_of(socket@),
{
    ListenerEntry {
        port: socket.port,
        address: socket.address,
        family: socket.family,
        pid: socket.pid,
        process: socket.process.clone(),
    }
}

proof fn lemma_insert_to_set<A>(s: Seq<A>, p: int, x: A)
    requires
        0 <= p <= s.len(),
    ensures
        s.insert(p, x).to_set() == s.to_set().insert(x),
{
    s.insert_ensures(p, x);
    let t = s.insert(p, x);
    assert forall|y: A| t.to_set().contains(y) <==> s.to_set().insert(x).contains(y) by {
        if t.contains(y) {
            let k = choose|k: int| 0 <= k < t.len() && t[k] == y;
            if k < p {
                assert(s[k] == y);
            } else if k > p {
                assert(s[k - 1] == y);
            }
        }
        if s.contains(y) {
            let k = choose|k: int| 0 <= k < s.len() && s[k] == y;
            if k < p {
                assert(t[k] == y);
            } else {
                assert(t[k + 1] == y);
            }
        }
        if y == x {
            assert(t[p] == x);
        }
    }
    assert(t.to_set() =~= s.to_set().insert(x));
}

/// The listening TCP sockets among `sockets` on the requested ports (every
/// port when none is requested), ordered by `column` and then by every
/// field, without repeats; and the requested ports, in increasing order and
/// once each, on which nothing listens.
pub fn summarize(sockets: &Vec<ObservedSocket>, requested: &Vec<u16>, column: ListenerOrder) -> (result:
    ListenersResult)
    ensures
        strictly_ordered(column, listener_models(result.listeners@)),
        listener_models(result.listeners@).to_set() == shown_entries(
            socket_models(sockets@),
            requested@,
        ),
        strictly_increasing(result.missing_ports@),
        result.missing_ports@.to_set() == ports_not_listening(
            requested@,
            shown_entries(socket_models(sockets@), requested@),
        ),
{
    let ghost all = socket_models(sockets@);
    let mut sorted: Vec<ListenerEntry> = Vec::new();
    let mut i: usize = 0;
    while i < sockets.len()
        invariant
            i <= sockets@.len(),
            all == socket_models(sockets@),
            strictly_ordered(column, listener_models(sorted@)),
            listener_models(sorted@).to_set() == shown_entries(all.take(i as int), requested@),
        decreases sockets@.len() - i,
    {
        let socket = &sockets[i];
        assert(all[i as int] == socket@);
        let ghost before = listener_models(sorted@);
        proof {
            let next = all.take(i + 1);
            assert forall|e: ListenerModel| #[trigger] shown_entries(next, requested@).contains(e)
                <==> (shown_entries(all.take(i as int), requested@).contains(e) || (socket_shown(
                socket@,
                requested@,
            ) && entry_of(socket@) == e)) by {
                if shown_entries(next, requested@).contains(e) {
                    let k = choose|k: int|
                        0 <= k < next.len() && socket_shown(next[k], requested@) && #[trigger] entry_of(
                            next[k],
                        ) == e;
                    if k < i {
                        assert(all.take(i as int)[k] == next[k]);
                    }
                }
                if shown_entries(all.take(i as int), requested@).contains(e) {
                    let k = choose|k: int|
                        0 <= k < i && socket_shown(all.take(i as int)[k], requested@) && #[trigger] entry_of(
                            all.take(i as int)[k],
                        ) == e;
                    assert(next[k] == all.take(i as int)[k]);
                }
                if socket_shown(socket@, requested@) && entry_of(socket@) == e {
                    assert(next[i as int] == socket@);
                }
            }
        }
        let wanted = socket.tcp && socket.listening && (requested.len() == 0 || contains_port(
            requested,
            socket.port,
        ));
        if !wanted {
            assert(shown_entries(all.take(i + 1), requested@) =~= shown_entries(
                all.take(i as int),
                requested@,
            ));
        } else {
            let entry = entry_from(socket);
            let mut p: usize = 0;
            while p < sorted.len() && compare_entries(column, &sorted[p], &entry) < 0
                invariant
                    p <= sorted@.len(),
                    before == listener_models(sorted@),
                    forall|k: int| 0 <= k < p ==> entry_before(column, #[trigger] before[k], entry@),
                decreases sorted@.len() - p,
            {
                assert(before[p as int] == sorted@[p as int]@);
                p = p + 1;
            }
            let present = p < sorted.len() && compare_entries(column, &sorted[p], &entry) == 0;
            proof {
                if p < sorted@.len() {
                    assert(before[p as int] == sorted@[p as int]@);
                    lemma_entry_order(column, before[p as int], entry@, entry@);
                }
            }
            if present {
                proof {
                    assert(before[p as int] == entry@);
                    assert(before.to_set().contains(entry@));
                    assert(before.to_set().insert(entry@) =~= before.to_set());
                    assert(shown_entries(all.take(i + 1), requested@) =~= before.to_set().insert(
                        entry@,
                    ));
                }
            } else {
                let ghost item = entry@;
                sorted.insert(p, entry);
                proof {
                    let after = listener_models(sorted@);
                    assert(after =~= before.insert(p as int, item));
                    lemma_insert_to_set(before, p as int, item);
                    assert(shown_entries(all.take(i + 1), requested@) =~= before.to_set().insert(
                        item,
                    ));
                    assert forall|a: int, b: int| 0 <= a < b < after.len() implies entry_before(
                        column,
                        #[trigger] after[a],
                        #[trigger] after[b],
                    ) by {
                        if b < p {
                        } else if b == p {
                            assert(after[a] == before[a]);
                        } else if a < p {
                            assert(after[b] == before[b - 1]);
                            assert(after[a] == before[a]);
                            if b - 1 > a {
                                assert(entry_before(column, before[a], before[b - 1]));
                            }
                        } else if a == p {
                            assert(after[b] == before[b - 1]);
                            lemma_entry_order(column, item, before[p as int], before[b - 1]);
                            if b - 1 > p {
                                assert(entry_before(column, before[p as int], before[b - 1]));
                            }
                        } else {
                            assert(after[a] == before[a - 1]);
                            assert(after[b] == before[b - 1]);
                        }
                    }
                }
            }
        }
        i = i + 1;
    }
    assert(all.take(i as int) =~= all);
    let ghost entries = shown_entries(all, requested@);
    let mut missing: Vec<u16> = Vec::new();
    let mut j: usize = 0;
    while j < requested.len()
        invariant
            j <= requested@.len(),
            entries == shown_entries(all, requested@),
            listener_models(sorted@).to_set() == entries,
            strictly_increasing(missing@),
            missing@.to_set() == ports_not_listening(requested@.take(j as int), entries),
        decreases requested@.len() - j,
    {
        let port = requested[j];
        let mut listening = false;
        let mut k: usize = 0;
        while k < sorted.len()
            invariant
                k <= sorted@.len(),
                listening ==> exists|m: int| 0 <= m < k && #[trigger] listener_models(sorted@)[m].port == port,
                !listening ==> forall|m: int| 0 <= m < k ==> #[trigger] listener_models(sorted@)[m].port != port,
            decreases sorted@.len() - k,
        {
            assert(listener_models(sorted@)[k as int] == sorted@[k as int]@);
            if sorted[k].port == port {
                listening = true;
                assert(listener_models(sorted@)[k as int].port == port);
            }
            k = k + 1;
        }
        let ghost before = missing@;
        if !listening {
            insert_sorted_unique(&mut missing, port);
        }
        proof {
            let models = listener_models(sorted@);
            assert(requested@.take(j + 1) =~= requested@.take(j as int).push(port));
            assert(listening == exists|e: ListenerModel| #[trigger] entries.contains(e) && e.port == port) by {
                if listening {
                    let m = choose|m: int| 0 <= m < models.len() && #[trigger] models[m].port == port;
                    assert(models.to_set().contains(models[m]));
                }
                if exists|e: ListenerModel| #[trigger] entries.contains(e) && e.port == port {
                    let e = choose|e: ListenerModel| #[trigger] entries.contains(e) && e.port == port;
                    assert(models.contains(e));
                    let m = choose|m: int| 0 <= m < models.len() && models[m] == e;
                    assert(models[m].port == port);
                }
            }
            assert forall|q: u16| #[trigger] missing@.to_set().contains(q) <==> ports_not_listening(
                requested@.take(j + 1),
                entries,
            ).contains(q) by {
                assert(requested@.take(j + 1).contains(q) <==> (requested@.take(j as int).contains(q)
                    || q == port)) by {
                    if requested@.take(j + 1).contains(q) {
                        let m = choose|m: int| 0 <= m < j + 1 && #[trigger] requested@.take(j + 1)[m] == q;
                        if m < j {
                            assert(requested@.take(j as int)[m] == q);
                        }
                    }
                    if requested@.take(j as int).contains(q) {
                        let m = choose|m: int| 0 <= m < j && #[trigger] requested@.take(j as int)[m] == q;
                        assert(requested@.take(j + 1)[m] == q);
                    }
                    if q == port {
                        assert(requested@.take(j + 1)[j as int] == q);
                    }
                }
            }
            assert(missing@.to_set() =~= ports_not_listening(requested@.take(j + 1), entries));
        }
        j = j + 1;
    }
    assert(requested@.take(j as int) =~= requested@);
    ListenersResult { listeners: sorted, missing_ports: missing }
}

} // verus!
