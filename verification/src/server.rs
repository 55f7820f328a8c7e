use vstd::prelude::*;

use crate::request::Request;
use crate::resp::RESP;
use crate::storage::{other_entries_kept, run_command, well_formed_command, Storage};
use crate::text::{has_text, lowercase_of, to_lowercase, views};

verus! {

/// The text of a bulk string.
pub open spec fn bulk_text(r: RESP) -> Option<Seq<char>> {
    match r {
        RESP::BulkString(s) => Some(s@),
        _ => None,
    }
}

/// The words of a request, when it is an array of bulk strings.
pub open spec fn request_words(value: RESP) -> Option<Seq<Seq<char>>> {
    match value {
        RESP::Array(elems) => if forall|i: int|
            0 <= i < elems@.len() ==> #[trigger] bulk_text(elems@[i]) is Some {
            Some(Seq::new(elems@.len(), |i: int| bulk_text(elems@[i])->0))
        } else {
            None
        },
        _ => None,
    }
}

/// The command that a request carries: the texts of its bulk strings, when
/// it is an array of bulk strings only.
pub fn request_command(value: &RESP) -> (r: Option<Vec<String>>)
    ensures
        match request_words(*value) {
            Some(w) => r matches Some(c) && views(c@) == w,
            None => r is None,
        },
{
    match value {
        RESP::Array(elements) => {
            let n = elements.len();
            let mut command: Vec<String> = Vec::new();
            let mut i: usize = 0;
            while i < n
                invariant
                    *value == RESP::Array(*elements),
                    n == elements.len(),
                    i <= n,
                    command.len() == i,
                    forall|j: int| 0 <= j < i ==> bulk_text(#[trigger] elements@[j]) is Some,
                    forall|j: int|
                        0 <= j < i ==> #[trigger] command@[j]@ == bulk_text(elements@[j])->0,
                decreases n - i,
            {
                match &elements[i] {
                    RESP::BulkString(v) => command.push(v.clone()),
                    _ => {
                        assert(bulk_text(elements@[i as int]) is None);
                        return None;
                    },
                }
                i = i + 1;
            }
            assert(views(command@) =~= request_words(*value)->0);
            Some(command)
        },
        _ => None,
    }
}

/// The server: the store that it answers from, once it has one.
pub struct Server {
    pub storage: Option<Storage>,
}

impl Server {
    /// A server with no store yet.
    pub fn new() -> (s: Self)
        ensures
            s.storage is None,
    {
        Self { storage: None }
    }

    /// Gives the server its store, in place of any earlier one.
    pub fn set_storage(&mut self, storage: Storage)
        ensures
            final(self).storage == Some(storage),
    {
        self.storage = Some(storage);
    }
}

/// A request that can be served: an array of bulk strings that makes a
/// command the store can answer, on a server that has a store.
pub open spec fn servable(value: RESP, server: Server) -> bool {
    &&& request_words(value) is Some
    &&& request_words(value)->0.len() >= 1
    &&& well_formed_command(request_words(value)->0, lowercase_of(request_words(value)->0[0]))
    &&& server.storage is Some
}

/// The store of `before` after the command of `value`, when `after` is the
/// server that results.
pub open spec fn served(value: RESP, before: Server, after: Server) -> bool {
    let words = request_words(value)->0;
    &&& before.storage matches Some(s0)
    &&& after.storage matches Some(s1)
    &&& s1@ == run_command(s0@, words, lowercase_of(words[0])).0
    &&& other_entries_kept(s0, s1, words, lowercase_of(words[0]))
}

/// Runs the command of a request on the server's store. The reply is not
/// sent anywhere.
pub fn process_request<S>(request: Request<S>, server: &mut Server)
    requires
        servable(request.value, *old(server)),
    ensures
        served(request.value, *old(server), *final(server)),
{
    let command = match request_command(&request.value) {
        Some(c) => c,
        None => {
            return;
        },
    };
    assert(views(command@)[0] == command@[0]@);
    match &mut server.storage {
        Some(storage) => {
            let _response = storage.process_command(&command);
        },
        None => {},
    }
}

/// Runs the command of a request when it can be served, and says whether it
/// was; a request that cannot be served leaves the server as it was.
pub fn try_process_request<S>(request: Request<S>, server: &mut Server) -> (done: bool)
    ensures
        done == servable(request.value, *old(server)),
        done ==> served(request.value, *old(server), *final(server)),
        !done ==> *final(server) == *old(server),
{
    if server.storage.is_none() {
        return false;
    }
    let command = match request_command(&request.value) {
        Some(c) => c,
        None => {
            return false;
        },
    };
    if command.len() == 0 {
        return false;
    }
    let name = to_lowercase(command[0].as_str());
    if has_text(&name, "echo") && command.len() < 2 {
        return false;
    }
    assert(views(command@)[0] == command@[0]@);
    process_request(request, server);
    true
}


/// The words of a request are the texts of its bulk strings, unchanged and in
/// order; an array that holds anything but bulk strings has no words.
pub proof fn law_request_words_are_the_texts(elems: Vec<RESP>)
    ensures
        (forall|i: int| 0 <= i < elems@.len() ==> #[trigger] elems@[i] is BulkString) ==> {
            &&& request_words(RESP::Array(elems)) is Some
            &&& request_words(RESP::Array(elems))->0.len() == elems@.len()
            &&& forall|i: int|
                0 <= i < elems@.len() ==> (#[trigger] elems@[i] matches RESP::BulkString(s)
                    && request_words(RESP::Array(elems))->0[i] == s@)
        },
        (exists|i: int| 0 <= i < elems@.len() && !(#[trigger] elems@[i] is BulkString))
            ==> request_words(RESP::Array(elems)) is None,
{
    if exists|i: int| 0 <= i < elems@.len() && !(#[trigger] elems@[i] is BulkString) {
        let i = choose|i: int| 0 <= i < elems@.len() && !(#[trigger] elems@[i] is BulkString);
        assert(bulk_text(elems@[i]) is None);
    }
}

/// A request that is not an array has no words.
pub proof fn law_only_arrays_have_words(value: RESP)
    requires
        !(value is Array),
    ensures
        request_words(value) is None,
{
}

} // verus!
