//! Reading a client's first request, whichever protocol it speaks.
//!
//! The first byte tells the protocol. From then on a machine says how many bytes to read next, and
//! from what came it goes on, answers, or ends with a request.
use crate::server::auth::{AuthExpect, AuthView};
use crate::server::http;
use crate::server::http::{ClientRequest, HeadReader, HeadStep, ReadEvent, RequestView};
use crate::server::socks5;
use crate::server::socks5::{Next, NextView, Stage, StageView};
use vstd::prelude::*;

verus! {

/// Where the reading of a request stands.
#[derive(Debug)]
pub enum Intake {
    /// Nothing was read.
    First,
    /// The client speaks HTTP, and this much of the head has come.
    Http(HeadReader),
    /// The client speaks SOCKS.
    Socks(Stage),
}

/// The contents of an [`Intake`].
pub enum IntakeView {
    First,
    Http(Seq<u8>),
    Socks(StageView),
}

impl View for Intake {
    type V = IntakeView;

    open spec fn view(&self) -> IntakeView {
        match self {
            Intake::First => IntakeView::First,
            Intake::Http(r) => IntakeView::Http(r.head@),
            Intake::Socks(s) => IntakeView::Socks(s@),
        }
    }
}

/// How many bytes to read next.
pub open spec fn wants(s: IntakeView) -> nat {
    match s {
        IntakeView::First => 1,
        IntakeView::Http(_) => 1,
        IntakeView::Socks(t) => t.wants(),
    }
}

/// What follows.
#[derive(Debug)]
pub enum Follow {
    /// Read on.
    Read(Intake),
    /// The client asks for this.
    Request(ClientRequest),
    /// There is nothing to serve.
    Drop,
}

/// The contents of a [`Follow`].
pub enum FollowView {
    Read(IntakeView),
    Request(RequestView),
    Drop,
}

impl View for Follow {
    type V = FollowView;

    open spec fn view(&self) -> FollowView {
        match self {
            Follow::Read(i) => FollowView::Read(i@),
            Follow::Request(r) => FollowView::Request(r@),
            Follow::Drop => FollowView::Drop,
        }
    }
}

/// What follows a complete head: what it asks for, if anything.
pub open spec fn follow_head(head: Seq<u8>) -> FollowView {
    match http::request_of(head) {
        Some(r) => FollowView::Request(r),
        None => FollowView::Drop,
    }
}

/// What to send to the client, and what follows, once the bytes that were wanted have come.
pub open spec fn taken_in(s: IntakeView, b: Seq<u8>, auth: Option<AuthView>) -> (Seq<u8>, FollowView) {
    match s {
        IntakeView::First => if b[0] == socks5::VERSION {
            (Seq::empty(), FollowView::Read(IntakeView::Socks(StageView::MethodCount)))
        } else {
            (Seq::empty(), FollowView::Read(IntakeView::Http(seq![b[0]])))
        },
        IntakeView::Http(head) => {
            let grown = head.push(b[0]);
            if http::head_done(grown) {
                (Seq::empty(), follow_head(grown))
            } else {
                (Seq::empty(), FollowView::Read(IntakeView::Http(grown)))
            }
        },
        IntakeView::Socks(t) => {
            let step = socks5::step_of(t, b, auth);
            (
                step.reply,
                match step.next {
                    NextView::Read(u) => FollowView::Read(IntakeView::Socks(u)),
                    NextView::Accept(r) => FollowView::Request(r),
                    NextView::Reject => FollowView::Drop,
                },
            )
        },
    }
}

impl Intake {
    /// How many bytes to read next.
    pub fn wanted(&self) -> (n: usize)
        ensures
            n == wants(self@),
    {
        match self {
            Intake::First => 1,
            Intake::Http(_) => 1,
            Intake::Socks(s) => s.wanted(),
        }
    }

    /// Take in the bytes that were wanted. Where they do not come, there is nothing to serve.
    pub fn step(self, chunk: &[u8], auth: Option<&AuthExpect>) -> (out: (Vec<u8>, Follow))
        requires
            chunk@.len() == wants(self@),
        ensures
            (out.0@, out.1@) == taken_in(self@, chunk@, socks5::auth_view(auth)),
    {
        let silent: Vec<u8> = Vec::new();
        assert(silent@ =~= Seq::empty());
        match self {
            Intake::First => {
                if chunk[0] == socks5::VERSION {
                    (silent, Follow::Read(Intake::Socks(Stage::MethodCount)))
                } else {
                    (silent, Follow::Read(Intake::Http(HeadReader::new(chunk[0]))))
                }
            },
            Intake::Http(reader) => match reader.step(ReadEvent::Byte(chunk[0])) {
                HeadStep::More(r) => (silent, Follow::Read(Intake::Http(r))),
                HeadStep::Complete(head) => match http::parse_request_head(head) {
                    Some(req) => (silent, Follow::Request(req)),
                    None => (silent, Follow::Drop),
                },
                HeadStep::Gone => (silent, Follow::Drop),
            },
            Intake::Socks(stage) => {
                let s = stage.step(chunk, auth);
                let follow = match s.next {
                    Next::Read(t) => Follow::Read(Intake::Socks(t)),
                    Next::Accept(r) => Follow::Request(r),
                    Next::Reject => Follow::Drop,
                };
                (s.reply, follow)
            },
        }
    }
}

/// What comes of a stream of bytes from a client of HTTP, of which `head` was read: what the head
/// asks for once it is complete, or nothing while it is not.
pub open spec fn http_intake(head: Seq<u8>, input: Seq<u8>, auth: Option<AuthView>) -> Option<FollowView>
    decreases input.len(),
{
    if input.len() == 0 {
        None
    } else {
        match taken_in(IntakeView::Http(head), input.take(1), auth).1 {
            FollowView::Read(IntakeView::Http(grown)) => http_intake(grown, input.skip(1), auth),
            end => Some(end),
        }
    }
}

/// A client of HTTP is served by its first complete head, read byte by byte, and by nothing that
/// follows it; credentials that the server asks for do not matter at this point.
pub proof fn law_http_request_is_the_first_complete_head(
    head: Seq<u8>,
    more: Seq<u8>,
    rest: Seq<u8>,
    auth: Option<AuthView>,
)
    requires
        more.len() > 0,
        http::head_done(head + more),
        forall|k: int| 0 < k < more.len() ==> !http::head_done(#[trigger] (head + more.take(k))),
    ensures
        http_intake(head, more + rest, auth) == Some(follow_head(head + more)),
    decreases more.len(),
{
    let input = more + rest;
    let b = more[0];
    let grown = head.push(b);
    assert(input.take(1)[0] == b);
    assert(input.skip(1) =~= more.skip(1) + rest);
    if more.len() == 1 {
        assert(grown =~= head + more);
    } else {
        assert(head + more.take(1) =~= grown);
        assert(!http::head_done(head + more.take(1)));
        assert forall|k: int| 0 < k < more.skip(1).len() implies !http::head_done(
            #[trigger] (grown + more.skip(1).take(k)),
        ) by {
            assert(grown + more.skip(1).take(k) =~= head + more.take(k + 1));
        }
        assert(grown + more.skip(1) =~= head + more);
        law_http_request_is_the_first_complete_head(grown, more.skip(1), rest, auth);
    }
}

/// The first byte of a client tells its protocol: five is the version of SOCKS, and any other begins
/// the head of an HTTP request. Nothing is answered to it.
pub proof fn law_first_byte_tells_the_protocol(b: u8, auth: Option<AuthView>)
    ensures
        b == 5 ==> taken_in(IntakeView::First, seq![b], auth) == (
            Seq::<u8>::empty(),
            FollowView::Read(IntakeView::Socks(StageView::MethodCount)),
        ),
        b != 5 ==> taken_in(IntakeView::First, seq![b], auth) == (
            Seq::<u8>::empty(),
            FollowView::Read(IntakeView::Http(seq![b])),
        ),
        wants(IntakeView::First) == 1,
{
}

/// A head is read on, one byte at a time and without an answer, until a blank line ends it or it is
/// longer than 65536 bytes; what it asks for is then served, and a head that asks for nothing is
/// dropped.
pub proof fn law_head_ends_with_a_blank_line(head: Seq<u8>, b: u8, auth: Option<AuthView>)
    ensures
        ({
            let grown = head.push(b);
            let n = grown.len() as int;
            let blank = n >= 4 && grown[n - 4] == 13 && grown[n - 3] == 10 && grown[n - 2] == 13
                && grown[n - 1] == 10;
            let (reply, follow) = taken_in(IntakeView::Http(head), seq![b], auth);
            &&& reply == Seq::<u8>::empty()
            &&& !blank && n <= 65536 ==> follow == FollowView::Read(IntakeView::Http(grown))
            &&& blank || n > 65536 ==> follow == (match http::request_of(grown) {
                Some(r) => FollowView::Request(r),
                None => FollowView::Drop,
            })
        }),
        wants(IntakeView::Http(head)) == 1,
{
    let grown = head.push(b);
    let n = grown.len() as int;
    if n >= 4 {
        let tail = grown.skip(n - 4);
        let end = seq![13u8, 10u8, 13u8, 10u8];
        assert(tail[0] == grown[n - 4] && tail[1] == grown[n - 3] && tail[2] == grown[n - 2] && tail[3]
            == grown[n - 1]);
        if grown[n - 4] == 13 && grown[n - 3] == 10 && grown[n - 2] == 13 && grown[n - 1] == 10 {
            assert(tail =~= end);
        } else {
            assert(tail != end) by {
                if tail == end {
                    assert(tail[0] == 13 && tail[1] == 10 && tail[2] == 13 && tail[3] == 10);
                }
            }
        }
    }
}

/// A client of SOCKS is answered as its handshake says, and is served once that lets it in.
pub proof fn law_socks_goes_by_its_handshake(s: StageView, b: Seq<u8>, auth: Option<AuthView>)
    ensures
        ({
            let step = socks5::step_of(s, b, auth);
            let (reply, follow) = taken_in(IntakeView::Socks(s), b, auth);
            &&& reply == step.reply
            &&& step.next matches NextView::Read(t) ==> follow == FollowView::Read(
                IntakeView::Socks(t),
            )
            &&& step.next matches NextView::Accept(r) ==> follow == FollowView::Request(r)
            &&& step.next is Reject ==> follow == FollowView::Drop
        }),
        wants(IntakeView::Socks(s)) == s.wants(),
{
}

} // verus!
