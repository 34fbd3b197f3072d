//! The streamed import upload: what each part of the upload sets, how the artifact's size is
//! counted against the server's limit, and what the finished upload asks to import.
//!
//! The upload arrives as a sequence of parts; the caller reads each part and tells the intake
//! what arrived. The intake decides what the part means, so reading and deciding stay apart.

use vstd::prelude::*;
use crate::access::{refusal_text, Refusal};
use crate::form::DEFAULT_BRANCH;
use crate::text::{chars_equal, chars_of, texts, trim_text, trimmed};

verus! {

/// What a streamed import upload has delivered so far.
pub struct UploadIntake {
    pub binding: String,
    pub branch: String,
    pub message: String,
    pub holder: String,
    pub accept_losses: Vec<String>,
    /// How many artifact bytes arrived, saturating at the largest count.
    pub received: u64,
    /// Whether an `artifact` part arrived.
    pub got_artifact: bool,
}

/// An intake's texts: binding, branch, message, holder, accepted losses, bytes received, and
/// whether an artifact arrived.
pub open spec fn intake_view(i: UploadIntake) -> (Seq<char>, Seq<char>, Seq<char>, Seq<char>, Seq<Seq<char>>, u64, bool) {
    (i.binding@, i.branch@, i.message@, i.holder@, texts(i.accept_losses@), i.received, i.got_artifact)
}

/// What a text part named `name` with value `value` does to an intake: it sets the binding,
/// branch, message or holder, adds an accepted loss, or is ignored.
pub open spec fn after_field(
    v: (Seq<char>, Seq<char>, Seq<char>, Seq<char>, Seq<Seq<char>>, u64, bool),
    name: Seq<char>,
    value: Seq<char>,
) -> (Seq<char>, Seq<char>, Seq<char>, Seq<char>, Seq<Seq<char>>, u64, bool) {
    if name == "binding"@ {
        (value, v.1, v.2, v.3, v.4, v.5, v.6)
    } else if name == "branch"@ {
        (v.0, value, v.2, v.3, v.4, v.5, v.6)
    } else if name == "message"@ {
        (v.0, v.1, value, v.3, v.4, v.5, v.6)
    } else if name == "holder"@ {
        (v.0, v.1, v.2, value, v.4, v.5, v.6)
    } else if name == "acceptLosses"@ {
        (v.0, v.1, v.2, v.3, v.4.push(value), v.5, v.6)
    } else {
        v
    }
}

/// The count after `len` more bytes, saturating at the largest count.
pub open spec fn counted(received: u64, len: u64) -> u64 {
    if received + len > u64::MAX {
        u64::MAX
    } else {
        (received + len) as u64
    }
}

/// What the finished upload asks to import.
pub struct StreamRequest {
    pub binding: String,
    pub branch: String,
    pub message: String,
    pub holder: Option<String>,
    pub accept_losses: Vec<String>,
}

impl UploadIntake {
    /// An upload nothing has arrived of yet.
    pub fn new() -> (r: UploadIntake)
        ensures
            intake_view(r) == (Seq::<char>::empty(), Seq::<char>::empty(), Seq::<char>::empty(), Seq::<char>::empty(), Seq::<Seq<char>>::empty(), 0u64, false),
    {
        let r = UploadIntake {
            binding: String::new(),
            branch: String::new(),
            message: String::new(),
            holder: String::new(),
            accept_losses: Vec::new(),
            received: 0,
            got_artifact: false,
        };
        proof {
            assert(texts(r.accept_losses@) =~= Seq::<Seq<char>>::empty());
        }
        r
    }

    /// A text part arrived.
    pub fn field(&mut self, name: &str, value: String)
        ensures
            intake_view(*final(self)) == after_field(intake_view(*old(self)), name@, value@),
    {
        let n = chars_of(name);
        if chars_equal(&n, "binding") {
            self.binding = value;
        } else if chars_equal(&n, "branch") {
            self.branch = value;
        } else if chars_equal(&n, "message") {
            self.message = value;
        } else if chars_equal(&n, "holder") {
            self.holder = value;
        } else if chars_equal(&n, "acceptLosses") {
            let ghost before = self.accept_losses@;
            self.accept_losses.push(value);
            proof {
                assert(texts(self.accept_losses@) =~= texts(before).push(value@));
            }
        }
    }

    /// The artifact part began.
    pub fn artifact_started(&mut self)
        ensures
            intake_view(*final(self)) == ({
                let v = intake_view(*old(self));
                (v.0, v.1, v.2, v.3, v.4, v.5, true)
            }),
    {
        self.got_artifact = true;
    }

    /// `len` more artifact bytes arrived. Whether the upload is still within `limit` bytes;
    /// once it is not, the import is refused as too large.
    pub fn chunk(&mut self, len: u64, limit: u64) -> (r: bool)
        ensures
            intake_view(*final(self)) == ({
                let v = intake_view(*old(self));
                (v.0, v.1, v.2, v.3, v.4, counted(v.5, len), v.6)
            }),
            r == (counted(old(self).received, len) <= limit),
    {
        self.received = self.received.saturating_add(len);
        self.received <= limit
    }

    /// What the finished upload asks to import: refused when no artifact arrived or no binding
    /// was chosen; the branch defaults to the main branch.
    pub fn finish(self) -> (r: Result<StreamRequest, Refusal>)
        ensures
            !self.got_artifact ==> (r matches Err(Refusal::BadRequest(m))
                && m@ == "the source artifact must be supplied as the `artifact` file field"@),
            self.got_artifact && self.binding@.len() == 0 ==> (r matches Err(Refusal::BadRequest(m))
                && m@ == "a binding must be selected"@),
            self.got_artifact && self.binding@.len() > 0 ==> (r matches Ok(req) && req.binding@ == self.binding@
                && req.branch@ == (if self.branch@.len() == 0 { DEFAULT_BRANCH@ } else { self.branch@ })
                && req.message@ == self.message@
                && texts(req.accept_losses@) == texts(self.accept_losses@)
                && (if self.holder@.len() == 0 { req.holder is None } else { (req.holder matches Some(h) && h@ == self.holder@) })),
    {
        if !self.got_artifact {
            return Err(Refusal::BadRequest(String::from_str("the source artifact must be supplied as the `artifact` file field")));
        }
        if self.binding.as_str().is_empty() {
            return Err(Refusal::BadRequest(String::from_str("a binding must be selected")));
        }
        let branch = if self.branch.as_str().is_empty() {
            String::from_str(DEFAULT_BRANCH)
        } else {
            self.branch
        };
        let holder = if self.holder.as_str().is_empty() {
            None
        } else {
            Some(self.holder)
        };
        Ok(StreamRequest { binding: self.binding, branch, message: self.message, holder, accept_losses: self.accept_losses })
    }
}

/// Whether a finished upload's request may go ahead once its branch name has passed the name
/// rule: refused when the commit message is blank.
pub fn message_gate(request: &StreamRequest) -> (r: Result<(), Refusal>)
    ensures
        r is Ok <==> trimmed(request.message@).len() > 0,
        r matches Err(refusal) ==> refusal is BadRequest && refusal_text(refusal) == "commit message must not be empty"@,
{
    if trim_text(request.message.as_str()).as_str().is_empty() {
        Err(Refusal::BadRequest(String::from_str("commit message must not be empty")))
    } else {
        Ok(())
    }
}

/// Once an upload is over the limit it stays over: the count never goes down, so more bytes
/// never bring it back within the limit.
pub proof fn lemma_too_large_stays(received: u64, len: u64, limit: u64)
    requires
        received > limit,
    ensures
        counted(received, len) >= received,
        counted(received, len) > limit,
{
}

} // verus!
