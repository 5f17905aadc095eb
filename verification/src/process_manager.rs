//! The queries that run on a frontend: how they are listed in a store of pairs that all
//! frontends share, and how one is killed.

use std::collections::HashMap;

use vstd::prelude::*;

use crate::text;

verus! {

/// The first number that a query can get.
pub const PROCESS_ID_INITIAL: u64 = 0;

/// How many numbers are reserved at once.
pub const PROCESS_ID_STEP: u64 = 100;

/// How many processes are listed at once.
pub const LIST_PAGE_SIZE: usize = 100;

/// A query: the frontend that it runs on, and its number.
#[derive(Debug, PartialEq, Eq)]
pub struct ProcessKey {
    pub frontend_ip: String,
    pub id: u64,
}

/// What is known of a query.
#[derive(Debug, PartialEq, Eq)]
pub struct ProcessValue {
    pub database: String,
    pub query: String,
    pub start_timestamp_ms: i64,
}

/// The bytes `__process/`.
pub open spec fn list_prefix() -> Seq<u8> {
    seq![95u8, 95, 112, 114, 111, 99, 101, 115, 115, 47]
}

/// What the keys of the queries on a frontend start with.
pub open spec fn frontend_prefix(frontend: Seq<u8>) -> Seq<u8> {
    list_prefix() + frontend + seq![45u8]
}

/// The key of a query.
pub open spec fn process_key(frontend: Seq<u8>, id: u64) -> Seq<u8> {
    frontend_prefix(frontend) + text::decimal(id as nat)
}

/// The address of a frontend as bytes.
pub open spec fn address(frontend: Seq<char>) -> Seq<u8> {
    vstd::utf8::encode_utf8(frontend)
}

fn push_frontend_prefix(out: &mut Vec<u8>, frontend: &str)
    ensures
        final(out)@ == old(out)@ + frontend_prefix(address(frontend@)),
{
    text::push_bytes(out, &[95, 95, 112, 114, 111, 99, 101, 115, 115, 47]);
    text::push_bytes(out, frontend.as_bytes());
    out.push(45);
    assert(out@ =~= old(out)@ + frontend_prefix(address(frontend@)));
}

impl ProcessKey {
    /// The key as bytes.
    pub fn to_bytes(&self) -> (r: Vec<u8>)
        ensures
            r@ == process_key(address(self.frontend_ip@), self.id),
    {
        let mut out: Vec<u8> = Vec::new();
        push_frontend_prefix(&mut out, self.frontend_ip.as_str());
        text::push_decimal(&mut out, self.id);
        assert(out@ =~= process_key(address(self.frontend_ip@), self.id));
        out
    }
}

/// The last place of a dash.
pub open spec fn last_dash(s: Seq<u8>) -> Option<int>
    decreases s.len(),
{
    if s.len() == 0 {
        None
    } else if s.last() == 45 {
        Some(s.len() - 1)
    } else {
        last_dash(s.drop_last())
    }
}

/// The frontend and the number that bytes stand for: what follows the last dash is the number.
pub open spec fn parse_process_key(bytes: Seq<u8>) -> Option<(Seq<char>, u64)> {
    if bytes.len() < 10 || bytes.take(10) != list_prefix() {
        None
    } else {
        let rest = bytes.skip(10);
        match last_dash(rest) {
            None => None,
            Some(i) => {
                let frontend = rest.take(i);
                let digits = rest.skip(i + 1);
                if vstd::utf8::valid_utf8(frontend) && text::is_number(digits)
                    && text::digits_value(digits) <= u64::MAX {
                    Some((vstd::utf8::decode_utf8(frontend), text::digits_value(digits) as u64))
                } else {
                    None
                }
            },
        }
    }
}

/// A dash with none behind it is the last.
proof fn lemma_last_dash(s: Seq<u8>, i: int)
    requires
        0 <= i < s.len(),
        s[i] == 45,
        forall|k: int| i < k < s.len() ==> #[trigger] s[k] != 45,
    ensures
        last_dash(s) == Some(i),
    decreases s.len(),
{
    if i < s.len() - 1 {
        assert(s[s.len() - 1] != 45);
        lemma_last_dash(s.drop_last(), i);
    }
}

proof fn lemma_no_dash(s: Seq<u8>)
    requires
        forall|k: int| 0 <= k < s.len() ==> #[trigger] s[k] != 45,
    ensures
        last_dash(s) is None,
    decreases s.len(),
{
    if s.len() > 0 {
        assert(s[s.len() - 1] != 45);
        lemma_no_dash(s.drop_last());
    }
}

impl ProcessKey {
    /// The key that bytes stand for.
    pub fn from_bytes(bytes: &[u8]) -> (r: Option<ProcessKey>)
        ensures
            match r {
                Some(key) => parse_process_key(bytes@) == Some((key.frontend_ip@, key.id)),
                None => parse_process_key(bytes@) is None,
            },
    {
        if bytes.len() < 10 || !text::bytes_equal(
            vstd::slice::slice_subrange(bytes, 0, 10),
            &[95, 95, 112, 114, 111, 99, 101, 115, 115, 47],
        ) {
            return None;
        }
        let ghost rest = bytes@.skip(10);
        let mut end: usize = bytes.len();
        while end > 10 && bytes[end - 1] != 45
            invariant
                10 <= end <= bytes@.len(),
                rest == bytes@.skip(10),
                forall|k: int| end - 10 <= k < rest.len() ==> #[trigger] rest[k] != 45,
            decreases end,
        {
            assert(rest[end - 11] == bytes@[end - 1]);
            end = end - 1;
        }
        if end == 10 {
            proof {
                lemma_no_dash(rest);
            }
            return None;
        }
        proof {
            assert(rest[end - 11] == bytes@[end - 1]);
            lemma_last_dash(rest, end - 11);
        }
        let frontend: &[u8] = vstd::slice::slice_subrange(bytes, 10, end - 1);
        let digits: &[u8] = vstd::slice::slice_subrange(bytes, end, bytes.len());
        assert(frontend@ =~= rest.take(end - 11));
        assert(digits@ =~= rest.skip(end - 10));
        if digits.len() > 0 && digits[0] == 43 {
            assert(!text::is_digit(digits@[0]));
            return None;
        }
        let id: u64 = match text::parse_u64(digits) {
            Some(id) => id,
            None => {
                return None;
            },
        };
        match text::utf8_string(vstd::slice::slice_to_vec(frontend)) {
            Some(frontend_ip) => {
                proof {
                    vstd::utf8::encode_utf8_decode_utf8(frontend_ip@);
                }
                Some(ProcessKey { frontend_ip, id })
            },
            None => None,
        }
    }
}

/// A key is read back from its bytes.
pub proof fn law_process_key_round_trip(frontend: Seq<char>, id: u64)
    ensures
        parse_process_key(process_key(address(frontend), id)) == Some((frontend, id)),
{
    let bytes = process_key(address(frontend), id);
    let ip = address(frontend);
    let digits = text::decimal(id as nat);
    assert(bytes.take(10) =~= list_prefix());
    let rest = bytes.skip(10);
    assert(rest =~= ip + seq![45u8] + digits);
    text::lemma_decimal(id as nat);
    assert forall|k: int| ip.len() < k < rest.len() implies #[trigger] rest[k] != 45 by {
        assert(rest[k] == digits[k - ip.len() - 1]);
        assert(text::is_digit(digits[k - ip.len() - 1]));
    }
    lemma_last_dash(rest, ip.len() as int);
    assert(rest.take(ip.len() as int) =~= ip);
    assert(rest.skip(ip.len() as int + 1) =~= digits);
    vstd::utf8::encode_utf8_valid_utf8(frontend);
    vstd::utf8::encode_utf8_decode_utf8(frontend);
}

/// A query that is to be put into the store.
#[derive(Debug)]
pub struct PutProcess {
    pub key: Vec<u8>,
    pub value: ProcessValue,
}

/// What is done to kill a query.
#[derive(Debug)]
pub enum KillAction<T> {
    /// The query runs here: it is cancelled.
    Cancel(T),
    /// No query of that number can be cancelled here.
    Nothing,
    /// Another frontend is asked to kill it.
    Ask { server_addr: String, process_id: u64 },
}

/// The queries of a frontend, and how those can be cancelled that can be.
pub struct ProcessManager<T> {
    pub server_addr: String,
    pub cancellation_tokens: HashMap<u64, T>,
}

impl<T> ProcessManager<T> {
    /// A manager of the queries of the frontend at an address.
    pub fn new(server_addr: String) -> (r: Self)
        ensures
            r.server_addr == server_addr,
            r.cancellation_tokens@ == Map::<u64, T>::empty(),
    {
        ProcessManager { server_addr, cancellation_tokens: HashMap::new() }
    }

    /// What to put into the store for a query that was given a number.
    pub fn register_query(&self, process_id: u64, database: String, query: String, now_millis: i64)
        -> (r: PutProcess)
        ensures
            r.key@ == process_key(address(self.server_addr@), process_id),
            r.value == (ProcessValue { database, query, start_timestamp_ms: now_millis }),
    {
        PutProcess {
            key: self.key_of(process_id),
            value: ProcessValue { database, query, start_timestamp_ms: now_millis },
        }
    }

    /// Remembers how a query that was put into the store can be cancelled.
    pub fn registered(&mut self, process_id: u64, cancellation_token: Option<T>) -> (r: u64)
        ensures
            r == process_id,
            final(self).server_addr == old(self).server_addr,
            final(self).cancellation_tokens@ == (match cancellation_token {
                Some(token) => old(self).cancellation_tokens@.insert(process_id, token),
                None => old(self).cancellation_tokens@,
            }),
    {
        broadcast use vstd::std_specs::hash::group_hash_axioms;

        if let Some(token) = cancellation_token {
            self.cancellation_tokens.insert(process_id, token);
        }
        process_id
    }

    fn key_of(&self, id: u64) -> (r: Vec<u8>)
        ensures
            r@ == process_key(address(self.server_addr@), id),
    {
        let mut out: Vec<u8> = Vec::new();
        push_frontend_prefix(&mut out, self.server_addr.as_str());
        text::push_decimal(&mut out, id);
        assert(out@ =~= process_key(address(self.server_addr@), id));
        out
    }

    /// The key to delete from the store when a query ends. That there is none under it is no
    /// failure.
    pub fn deregister_query(&self, id: u64) -> (r: Vec<u8>)
        ensures
            r@ == process_key(address(self.server_addr@), id),
    {
        self.key_of(id)
    }

    /// What the keys start with that are to be deleted to remove all queries of this frontend.
    pub fn deregister_all_queries(&self) -> (r: Vec<u8>)
        ensures
            r@ == frontend_prefix(address(self.server_addr@)),
    {
        let mut out: Vec<u8> = Vec::new();
        push_frontend_prefix(&mut out, self.server_addr.as_str());
        assert(out@ =~= frontend_prefix(address(self.server_addr@)));
        out
    }

    /// What the keys start with that are to be read to list the queries.
    pub fn list_all_processes(&self) -> (r: Vec<u8>)
        ensures
            r@ == frontend_prefix(address(self.server_addr@)),
    {
        self.deregister_all_queries()
    }

    /// What is done to kill a query: one that runs here is cancelled, where it can be, and
    /// cannot be a second time; for any other the frontend that it runs on is asked.
    pub fn kill(&mut self, server_addr: String, process_id: u64) -> (r: KillAction<T>)
        ensures
            final(self).server_addr == old(self).server_addr,
            r == (if server_addr@ != old(self).server_addr@ {
                KillAction::Ask { server_addr, process_id }
            } else if old(self).cancellation_tokens@.contains_key(process_id) {
                KillAction::Cancel(old(self).cancellation_tokens@[process_id])
            } else {
                KillAction::Nothing
            }),
            final(self).cancellation_tokens@ == (if server_addr@ == old(self).server_addr@ {
                old(self).cancellation_tokens@.remove(process_id)
            } else {
                old(self).cancellation_tokens@
            }),
    {
        broadcast use vstd::std_specs::hash::group_hash_axioms;

        if text::text_equal(server_addr.as_str(), self.server_addr.as_str()) {
            match self.cancellation_tokens.remove(&process_id) {
                Some(token) => KillAction::Cancel(token),
                None => {
                    assert(self.cancellation_tokens@ =~= old(self).cancellation_tokens@);
                    KillAction::Nothing
                },
            }
        } else {
            KillAction::Ask { server_addr, process_id }
        }
    }
}

/// The last query of a number in a list.
pub open spec fn last_with_id(processes: Seq<ProcessKey>, id: u64) -> Option<ProcessKey>
    decreases processes.len(),
{
    if processes.len() == 0 {
        None
    } else if processes.last().id == id {
        Some(processes.last())
    } else {
        last_with_id(processes.drop_last(), id)
    }
}

/// Finds the frontend that a query runs on, in the list of queries, to kill it there. Without
/// a manager there is no list. However it comes out, no rows are affected.
pub fn execute_kill(processes: Option<&Vec<ProcessKey>>, process_id: u64) -> (r: (
    Option<String>,
    usize,
))
    ensures
        r.1 == 0,
        ({
            let found = match processes {
                Some(processes) => last_with_id(processes@, process_id),
                None => None,
            };
            match r.0 {
                Some(server) => found is Some && server@ == found->0.frontend_ip@,
                None => found is None,
            }
        }),
{
    let list: &Vec<ProcessKey> = match processes {
        Some(processes) => processes,
        None => {
            return (None, 0);
        },
    };
    let mut end: usize = list.len();
    assert(list@.take(end as int) =~= list@);
    while end > 0
        invariant
            processes == Some(list),
            end <= list@.len(),
            last_with_id(list@, process_id) == last_with_id(list@.take(end as int), process_id),
        decreases end,
    {
        let i: usize = end - 1;
        assert(list@.take(end as int).last() == list@[i as int]);
        assert(list@.take(end as int).drop_last() =~= list@.take(i as int));
        if list[i].id == process_id {
            return (Some(list[i].frontend_ip.clone()), 0);
        }
        end = i;
    }
    (None, 0)
}

/// The address of a frontend continues that of another with a dash.
pub open spec fn extends_with_dash(own: Seq<u8>, other: Seq<u8>) -> bool {
    (own + seq![45u8]).is_prefix_of(other)
}

/// The queries of a frontend are listed under its own prefix, and those of another frontend are
/// not, unless its address continues the own one with a dash.
pub proof fn law_prefix_tells_frontends_apart(own: Seq<u8>, other: Seq<u8>, id: u64)
    requires
        !extends_with_dash(own, other),
    ensures
        frontend_prefix(own).is_prefix_of(process_key(own, id)),
        frontend_prefix(own).is_prefix_of(process_key(other, id)) <==> own == other,
{
    let prefix = frontend_prefix(own);
    let key = process_key(other, id);
    let digits = text::decimal(id as nat);
    let n = list_prefix().len() as int;
    text::lemma_decimal(id as nat);
    assert(process_key(own, id).take(prefix.len() as int) =~= prefix);
    if prefix.is_prefix_of(key) {
        let at = n + own.len();
        assert(prefix[at] == 45);
        assert(key[at] == prefix[at]);
        if at < n + other.len() {
            let start = own + seq![45u8];
            assert(start =~= other.take(start.len() as int)) by {
                assert forall|i: int| 0 <= i < start.len() implies start[i] == other[i] by {
                    assert(prefix[n + i] == start[i]);
                    assert(key[n + i] == other[i]);
                }
            }
            assert(extends_with_dash(own, other));
        } else if at > n + other.len() {
            assert(key[at] == digits[at - n - other.len() - 1]);
            assert(text::is_digit(digits[at - n - other.len() - 1]));
        }
        assert(own.len() == other.len());
        assert forall|i: int| 0 <= i < own.len() implies own[i] == other[i] by {
            assert(prefix[n + i] == own[i]);
            assert(key[n + i] == other[i]);
        }
        assert(own =~= other);
    }
}

/// No two queries of a frontend have one key.
pub proof fn law_process_keys_differ(frontend: Seq<u8>, a: u64, b: u64)
    requires
        process_key(frontend, a) == process_key(frontend, b),
    ensures
        a == b,
{
    let n = frontend_prefix(frontend).len() as int;
    assert(process_key(frontend, a).skip(n) =~= text::decimal(a as nat));
    assert(process_key(frontend, b).skip(n) =~= text::decimal(b as nat));
    text::lemma_decimal(a as nat);
    text::lemma_decimal(b as nat);
}

/// A store without the pairs whose keys start in a given way.
pub open spec fn without_prefix(
    store: Map<Seq<u8>, Seq<u8>>,
    prefix: Seq<u8>,
) -> Map<Seq<u8>, Seq<u8>> {
    store.restrict(Set::new(|key: Seq<u8>| !prefix.is_prefix_of(key)))
}

/// A query that was registered is listed until it is deregistered; deregistering one, or one
/// that is not there, leaves all others; and deregistering all of a frontend leaves those of
/// other frontends, whose addresses do not continue the own one with a dash.
pub proof fn law_register_and_deregister(
    store: Map<Seq<u8>, Seq<u8>>,
    own: Seq<u8>,
    other: Seq<u8>,
    id: u64,
    other_id: u64,
    value: Seq<u8>,
)
    requires
        !extends_with_dash(own, other),
        own != other || id != other_id,
    ensures
        ({
            let registered = store.insert(process_key(own, id), value);
            let deregistered = registered.remove(process_key(own, id));
            let all_removed = without_prefix(registered, frontend_prefix(own));
            &&& registered.contains_key(process_key(own, id))
            &&& frontend_prefix(own).is_prefix_of(process_key(own, id))
            &&& !deregistered.contains_key(process_key(own, id))
            &&& deregistered.contains_key(process_key(other, other_id)) <==> store.contains_key(
                process_key(other, other_id),
            )
            &&& !all_removed.contains_key(process_key(own, id))
            &&& own != other ==> (all_removed.contains_key(process_key(other, other_id))
                <==> store.contains_key(process_key(other, other_id)))
        }),
{
    assert(!extends_with_dash(own, own));
    law_prefix_tells_frontends_apart(own, own, id);
    law_prefix_tells_frontends_apart(own, other, other_id);
    if process_key(own, id) == process_key(other, other_id) {
        assert(own == other);
        law_process_keys_differ(own, id, other_id);
    }
}

/// The query that is found has the number, and none behind it in the list does; where none is
/// found, no query of the list has it.
pub proof fn law_last_with_id(processes: Seq<ProcessKey>, id: u64) -> (at: int)
    ensures
        match last_with_id(processes, id) {
            Some(found) => {
                &&& 0 <= at < processes.len()
                &&& found == processes[at]
                &&& found.id == id
                &&& forall|k: int| at < k < processes.len() ==> (#[trigger] processes[k]).id != id
            },
            None => forall|k: int|
                0 <= k < processes.len() ==> (#[trigger] processes[k]).id != id,
        },
    decreases processes.len(),
{
    if processes.len() == 0 {
        0
    } else if processes.last().id == id {
        processes.len() - 1
    } else {
        let fewer = processes.drop_last();
        let at = law_last_with_id(fewer, id);
        assert forall|k: int| 0 <= k < processes.len() - 1 implies (#[trigger] processes[k])
            == fewer[k] by {}
        at
    }
}

/// Bytes are read as a key only where they are one: `__process/`, the address of the frontend,
/// a dash and digits that give the number.
pub proof fn law_only_keys_are_read(bytes: Seq<u8>) -> (digits: Seq<u8>)
    ensures
        parse_process_key(bytes) matches Some((frontend, id)) ==> {
            &&& bytes == seq![95u8, 95, 112, 114, 111, 99, 101, 115, 115, 47] + address(frontend)
                + seq![45u8] + digits
            &&& digits.len() > 0
            &&& forall|k: int| 0 <= k < digits.len() ==> 48 <= #[trigger] digits[k] <= 57
            &&& text::digits_value(digits) == id
        },
{
    if parse_process_key(bytes) is Some {
        let rest = bytes.skip(10);
        let i = last_dash(rest)->0;
        lemma_dash_place(rest);
        let digits = rest.skip(i + 1);
        vstd::utf8::decode_utf8_encode_utf8(rest.take(i));
        assert(bytes =~= bytes.take(10) + rest);
        assert(rest =~= rest.take(i) + seq![45u8] + digits);
        assert(bytes =~= list_prefix() + rest.take(i) + seq![45u8] + digits);
        assert forall|k: int| 0 <= k < digits.len() implies 48 <= #[trigger] digits[k] <= 57 by {
            assert(text::is_digit(digits[k]));
        }
        digits
    } else {
        bytes
    }
}

proof fn lemma_dash_place(s: Seq<u8>)
    ensures
        last_dash(s) matches Some(i) ==> 0 <= i < s.len() && s[i] == 45,
    decreases s.len(),
{
    if s.len() > 0 && s.last() != 45 {
        lemma_dash_place(s.drop_last());
    }
}

/// A query is put into the store, and deleted from it, under one key, from which its frontend and
/// its number are read back; the key starts as those do that are listed, and as those that are
/// deleted when the frontend ends. What is put tells the database, the query and the time.
pub proof fn law_one_key_for_a_query<T>(
    manager: ProcessManager<T>,
    id: u64,
    database: String,
    query: String,
    now_millis: i64,
    put: PutProcess,
    deleted: Vec<u8>,
    all: Vec<u8>,
    listed: Vec<u8>,
    given: &[u8],
    read: Option<ProcessKey>,
)
    requires
        call_ensures(
            ProcessManager::<T>::register_query,
            (&manager, id, database, query, now_millis),
            put,
        ),
        call_ensures(ProcessManager::<T>::deregister_query, (&manager, id), deleted),
        call_ensures(ProcessManager::<T>::deregister_all_queries, (&manager,), all),
        call_ensures(ProcessManager::<T>::list_all_processes, (&manager,), listed),
        given@ == put.key@,
        call_ensures(ProcessKey::from_bytes, (given,), read),
    ensures
        put.key@ == deleted@,
        all@.is_prefix_of(put.key@),
        listed@ == all@,
        put.value.database == database,
        put.value.query == query,
        put.value.start_timestamp_ms == now_millis,
        read matches Some(key) && key.frontend_ip@ == manager.server_addr@ && key.id == id,
{
    law_process_key_round_trip(manager.server_addr@, id);
    let own = address(manager.server_addr@);
    assert(!extends_with_dash(own, own));
    law_prefix_tells_frontends_apart(own, own, id);
}

/// A query that runs here is cancelled by the means that were given for it, once; one that runs
/// elsewhere is left to the frontend that it runs on, which is asked; and no other query loses
/// its means.
pub proof fn law_kill_cancels_once<T>(
    manager: &mut ProcessManager<T>,
    server_addr: String,
    id: u64,
    r: KillAction<T>,
    other: u64,
)
    requires
        call_ensures(ProcessManager::<T>::kill, (manager, server_addr, id), r),
        other != id,
    ensures
        server_addr@ != old(manager).server_addr@ ==> (r matches KillAction::Ask {
            server_addr: asked,
            process_id,
        } && asked == server_addr && process_id == id) && final(manager).cancellation_tokens@
            == old(manager).cancellation_tokens@,
        server_addr@ == old(manager).server_addr@ ==> {
            &&& !final(manager).cancellation_tokens@.contains_key(id)
            &&& old(manager).cancellation_tokens@.contains_key(id) ==> r == KillAction::Cancel(
                old(manager).cancellation_tokens@[id],
            )
            &&& !old(manager).cancellation_tokens@.contains_key(id) ==> r is Nothing
        },
        old(manager).cancellation_tokens@.contains_key(other) ==> final(manager).cancellation_tokens@.contains_key(other) && final(manager).cancellation_tokens@[other]
            == old(manager).cancellation_tokens@[other],
        final(manager).server_addr == old(manager).server_addr,
{
}

/// The frontend that is asked to kill a query is that of the last query of the number in the list;
/// none is asked where no query of the list has it, or there is no list.
pub proof fn law_kill_finds_the_frontend(
    processes: Option<&Vec<ProcessKey>>,
    id: u64,
    r: (Option<String>, usize),
) -> (at: int)
    requires
        call_ensures(execute_kill, (processes, id), r),
    ensures
        r.1 == 0,
        processes is None ==> r.0 is None,
        processes matches Some(list) ==> match r.0 {
            Some(server) => {
                &&& 0 <= at < list@.len()
                &&& list@[at].id == id
                &&& server@ == list@[at].frontend_ip@
                &&& forall|k: int| at < k < list@.len() ==> (#[trigger] list@[k]).id != id
            },
            None => forall|k: int| 0 <= k < list@.len() ==> (#[trigger] list@[k]).id != id,
        },
{
    match processes {
        Some(list) => law_last_with_id(list@, id),
        None => 0,
    }
}

} // verus!
