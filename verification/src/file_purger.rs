//! Removes files of a region that are no longer needed.

use vstd::prelude::*;

use crate::text;

verus! {

/// Asks for a file to be removed.
#[derive(Debug)]
pub struct FilePurgeRequest<L> {
    pub region_id: u64,
    pub file_name: String,
    /// What removes the file.
    pub sst_layer: L,
}

impl<L> FilePurgeRequest<L> {
    /// What tells a request from others: the region and the file.
    pub open spec fn spec_key(self) -> Seq<char> {
        text::decimal_chars(self.region_id as nat) + seq!['/'] + self.file_name@
    }

    /// What tells a request from others: the region and the file.
    pub fn key(&self) -> (r: String)
        ensures
            r@ == self.spec_key(),
    {
        let mut key: String = String::new();
        text::append_decimal(&mut key, self.region_id);
        proof {
            reveal_strlit("/");
        }
        key.append("/");
        key.append(self.file_name.as_str());
        assert(key@ =~= self.spec_key());
        key
    }
}

/// What is done when a file was to be removed.
#[derive(Debug)]
pub struct Purged<E> {
    /// The token of the request is released.
    pub release_token: bool,
    /// Whoever waits for the end of the request is told.
    pub notify: bool,
    pub result: Result<(), E>,
}

/// Removes files.
#[derive(Clone, Copy, Debug, PartialEq, Eq, Structural)]
pub struct FilePurgeHandler;

impl FilePurgeHandler {
    /// The file to remove.
    pub fn handle_request<'a, L>(&self, req: &'a FilePurgeRequest<L>) -> (r: &'a str)
        ensures
            r@ == req.file_name@,
    {
        req.file_name.as_str()
    }

    /// What is done, given whether the file could be removed. Where it could not, the token is
    /// kept, and nobody is told.
    pub fn request_handled<E>(&self, deleted: Result<(), E>) -> (r: Purged<E>)
        ensures
            r.result == deleted,
            r.release_token == deleted is Ok,
            r.notify == deleted is Ok,
    {
        let removed: bool = deleted.is_ok();
        Purged { release_token: removed, notify: removed, result: deleted }
    }
}

/// Two requests have one key exactly where they are for the same file of the same region.
pub proof fn law_purge_keys<L>(a: FilePurgeRequest<L>, b: FilePurgeRequest<L>)
    ensures
        a.spec_key() == b.spec_key() <==> a.region_id == b.region_id && a.file_name@
            == b.file_name@,
{
    if a.spec_key() == b.spec_key() {
        let x = text::decimal(a.region_id as nat);
        let y = text::decimal(b.region_id as nat);
        let key = a.spec_key();
        text::lemma_decimal(a.region_id as nat);
        text::lemma_decimal(b.region_id as nat);
        lemma_digits_end(a, b);
        lemma_digits_end(b, a);
        assert(x.len() == y.len());
        assert forall|i: int| 0 <= i < x.len() implies x[i] == y[i] by {
            assert(text::is_digit(x[i]) && text::is_digit(y[i]));
            assert(key[i] == x[i] as char);
            assert(b.spec_key()[i] == y[i] as char);
        }
        assert(x =~= y);
        assert(a.file_name@ =~= key.skip(x.len() as int + 1));
        assert(b.file_name@ =~= b.spec_key().skip(y.len() as int + 1));
    }
}

/// The digits of one key do not end before those of another that is the same.
proof fn lemma_digits_end<L>(a: FilePurgeRequest<L>, b: FilePurgeRequest<L>)
    requires
        a.spec_key() == b.spec_key(),
    ensures
        text::decimal(a.region_id as nat).len() >= text::decimal(b.region_id as nat).len(),
{
    let x = text::decimal(a.region_id as nat);
    let y = text::decimal(b.region_id as nat);
    text::lemma_decimal(b.region_id as nat);
    if x.len() < y.len() {
        let n = x.len() as int;
        assert(a.spec_key()[n] == '/');
        assert(b.spec_key()[n] == y[n] as char);
        assert(text::is_digit(y[n]));
    }
}

/// The file that is removed is the one that the request names; and the token is released and those
/// who wait are told exactly where it was removed, with how it came out.
pub proof fn law_named_file_is_removed<L, E>(
    handler: FilePurgeHandler,
    request: FilePurgeRequest<L>,
    file: &str,
    deleted: Result<(), E>,
    r: Purged<E>,
)
    requires
        call_ensures(FilePurgeHandler::handle_request::<L>, (&handler, &request), file),
        call_ensures(FilePurgeHandler::request_handled::<E>, (&handler, deleted), r),
    ensures
        file@ == request.file_name@,
        r.result == deleted,
        r.release_token <==> deleted is Ok,
        r.notify <==> deleted is Ok,
{
}

} // verus!
