//! The engine interface, and what the server does with one command.
use vstd::prelude::*;
use vstd::string::*;

use crate::command::{Command, CommandModel};
use crate::engine::KvStore;
use crate::error::{error_message, not_found_message, KvError};
use crate::protocol::{opt_view, Response, ResponseModel};

verus! {

/// A key/value backend: set, get and remove over string keys.
pub trait YakvEngine {
    /// The pairs that the backend holds.
    spec fn contents(&self) -> Map<Seq<char>, Seq<char>>;

    /// The backend is in working order.
    spec fn ready(&self) -> bool;

    /// Sets `key` to `value`; a failure leaves the contents as they were.
    fn set(&mut self, key: String, value: String) -> (r: Result<(), KvError>)
        requires
            old(self).ready(),
        ensures
            final(self).ready(),
            r is Ok ==> final(self).contents() == old(self).contents().insert(key@, value@),
            r is Err ==> final(self).contents() == old(self).contents(),
    ;

    /// The value of `key`, if the backend holds it.
    fn get(&mut self, key: String) -> (r: Result<Option<String>, KvError>)
        requires
            old(self).ready(),
        ensures
            final(self).ready(),
            final(self).contents() == old(self).contents(),
            r matches Ok(v) ==> opt_view(v) == old(self).contents().get(key@),
    ;

    /// Removes `key`; `NotFound` where the backend does not hold it. A
    /// failure leaves the contents as they were.
    fn remove(&mut self, key: String) -> (r: Result<(), KvError>)
        requires
            old(self).ready(),
        ensures
            final(self).ready(),
            r is Ok ==> old(self).contents().contains_key(key@) && final(self).contents() == old(self).contents().remove(key@),
            r matches Err(KvError::NotFound(_)) ==> !old(self).contents().contains_key(key@),
            r is Err ==> final(self).contents() == old(self).contents(),
    ;
}

impl YakvEngine for KvStore {
    open spec fn contents(&self) -> Map<Seq<char>, Seq<char>> {
        self.model()
    }

    open spec fn ready(&self) -> bool {
        self.wf()
    }

    fn set(&mut self, key: String, value: String) -> (r: Result<(), KvError>) {
        KvStore::set(self, key, value)
    }

    fn get(&mut self, key: String) -> (r: Result<Option<String>, KvError>) {
        KvStore::get(self, key)
    }

    fn remove(&mut self, key: String) -> (r: Result<(), KvError>) {
        KvStore::remove(self, key)
    }
}

/// The response that reports the failure `e`.
pub fn error_response(e: KvError) -> (r: Response)
    ensures
        r@ == (ResponseModel { is_error: true, error_msg: Some(error_message(e)), value: None }),
{
    let msg = e.message();
    Response::new(true, Some(msg), None)
}

/// The response for the outcome of a command: success with the value, if
/// any, or the failure's message.
pub fn response_for(outcome: Result<Option<String>, KvError>) -> (r: Response)
    ensures
        match outcome {
            Ok(v) => r@ == (ResponseModel { is_error: false, error_msg: None, value: opt_view(v) }),
            Err(e) => r@ == (ResponseModel {
                is_error: true,
                error_msg: Some(error_message(e)),
                value: None,
            }),
        },
{
    match outcome {
        Ok(v) => Response::new(false, None, v),
        Err(e) => error_response(e),
    }
}

/// Carries out `cmd` on any engine, and returns the response to send back:
/// the value for a `Get`, nothing for a `Set` or `Remove`, or the engine's
/// failure, which leaves the contents as they were.
pub fn handle_command<E: YakvEngine>(store: &mut E, cmd: Command) -> (r: Response)
    requires
        old(store).ready(),
    ensures
        final(store).ready(),
        r.is_error ==> r@.value is None && r@.error_msg is Some,
        r.is_error ==> final(store).contents() == old(store).contents(),
        !r.is_error ==> r@.error_msg is None,
        match cmd@ {
            CommandModel::Put { key, value } => !r.is_error ==> r@.value is None && final(store).contents() == old(store).contents().insert(key, value),
            CommandModel::Get { key } => final(store).contents() == old(store).contents() && (
            !r.is_error ==> r@.value == old(store).contents().get(key)),
            CommandModel::Remove { key } => !r.is_error ==> r@.value is None && old(store).contents().contains_key(key) && final(store).contents() == old(store).contents().remove(key),
        },
{
    match cmd {
        Command::Put { key, value } => match store.set(key, value) {
            Ok(()) => response_for(Ok(None)),
            Err(e) => response_for(Err(e)),
        },
        Command::Get { key } => response_for(store.get(key)),
        Command::Remove { key } => match store.remove(key) {
            Ok(()) => response_for(Ok(None)),
            Err(e) => response_for(Err(e)),
        },
    }
}

/// Carries out `cmd` on the log store, and returns the response to send
/// back: a `Set` succeeds; a `Get` answers with the value, or with none on a
/// miss; a `Remove` succeeds where the key is present, and otherwise answers
/// with the `NotFound` message and leaves the store as it was.
pub fn handle_store_command(store: &mut KvStore, cmd: Command) -> (r: Response)
    requires
        old(store).wf(),
    ensures
        final(store).wf(),
        match cmd@ {
            CommandModel::Put { key, value } => r@ == (ResponseModel { is_error: false, error_msg: None, value: None })
                && final(store).model() == old(store).model().insert(key, value),
            CommandModel::Get { key } => r@ == (ResponseModel { is_error: false, error_msg: None, value: old(store).model().get(key) })
                && *final(store) == *old(store),
            CommandModel::Remove { key } => if old(store).model().contains_key(key) {
                r@ == (ResponseModel { is_error: false, error_msg: None, value: None })
                    && final(store).model() == old(store).model().remove(key)
            } else {
                r@ == (ResponseModel { is_error: true, error_msg: Some(not_found_message(key)), value: None })
                    && *final(store) == *old(store)
            },
        },
{
    match cmd {
        Command::Put { key, value } => {
            let _ = store.set(key, value);
            response_for(Ok(None))
        },
        Command::Get { key } => match store.get(key) {
            Ok(v) => response_for(Ok(v)),
            Err(e) => response_for(Err(e)),
        },
        Command::Remove { key } => match store.remove(key) {
            Ok(()) => response_for(Ok(None)),
            Err(e) => response_for(Err(e)),
        },
    }
}

/// What the client shows for a response: its exit code, and the line it
/// prints on standard output or on standard error, if any.
#[derive(Debug, PartialEq, Eq)]
pub struct ClientOutput {
    pub exit_code: i32,
    pub stdout: Option<String>,
    pub stderr: Option<String>,
}

/// What the client shows for `response` to a command (`is_get` for a `Get`):
/// a failure's message on standard error with exit code 1; otherwise exit
/// code 0, the value on standard output, or `Key not found` for a `Get` that
/// found nothing.
pub fn client_output(response: Response, is_get: bool) -> (r: ClientOutput)
    ensures
        response.is_error ==> r.exit_code == 1 && r.stdout is None && opt_view(r.stderr) == Some(
            match response@.error_msg {
                Some(m) => m,
                None => Seq::<char>::empty(),
            },
        ),
        !response.is_error ==> r.exit_code == 0 && r.stderr is None && opt_view(r.stdout) == match response@.value {
            Some(v) => Some(v),
            None => if is_get {
                Some(seq!['K', 'e', 'y', ' ', 'n', 'o', 't', ' ', 'f', 'o', 'u', 'n', 'd'])
            } else {
                None
            },
        },
{
    if response.is_error {
        let msg = match response.error_msg {
            Some(m) => m,
            None => String::new(),
        };
        return ClientOutput { exit_code: 1, stdout: None, stderr: Some(msg) };
    }
    let out = match response.value {
        Some(v) => Some(v),
        None => if is_get {
            let t = String::from_str("Key not found");
            proof {
                reveal_strlit("Key not found");
            }
            assert(t@ =~= seq!['K', 'e', 'y', ' ', 'n', 'o', 't', ' ', 'f', 'o', 'u', 'n', 'd']);
            Some(t)
        } else {
            None
        },
    };
    ClientOutput { exit_code: 0, stdout: out, stderr: None }
}

} // verus!
