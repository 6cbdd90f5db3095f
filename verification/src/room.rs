//! The group chat's room.
//!
//! The room keeps the members, each with the reference of the watch under
//! which the room learns that it is gone, and the ten most recent messages.
//! A joining member receives the recent messages, oldest first; a posted
//! message goes to every member, then enters the history, where the oldest
//! message leaves once more than ten are kept; a member that is gone is
//! forgotten.
use vstd::prelude::*;
use std::collections::{HashMap, VecDeque};
use vstd::std_specs::iter::IteratorSpec;
use crate::chat_protocol::{Join, Joined, Message, Post, messages_view};

verus! {

broadcast use vstd::std_specs::hash::group_hash_axioms;

/// How many of the most recent messages the room keeps.
pub const HISTORY_LIMIT: usize = 10;

/// The last `HISTORY_LIMIT` of the posted messages (all of them when fewer
/// were posted), oldest first.
pub open spec fn recent(posts: Seq<Seq<u8>>) -> Seq<Seq<u8>> {
    if posts.len() <= HISTORY_LIMIT {
        posts
    } else {
        posts.subrange(posts.len() - HISTORY_LIMIT, posts.len() as int)
    }
}

pub struct Room {
    members: HashMap<u64, u64>,
    history: VecDeque<Vec<u8>>,
    posts: Ghost<Seq<Seq<u8>>>,
}

/// What the room does on a `Join`.
pub struct JoinReply {
    /// The member's previous watch, which the room no longer needs.
    pub stale_watch: Option<u64>,
    /// Where the history goes.
    pub reply_to: u64,
    pub joined: Joined,
}

/// What the room does on a `Post`.
pub struct PostReply {
    /// The members the message goes to; each once.
    pub recipients: Vec<u64>,
    pub message: Message,
    /// Where the acknowledgement goes.
    pub reply_to: u64,
}

impl Room {
    /// The members, each with the reference of its watch.
    pub closed spec fn members(&self) -> Map<u64, u64> {
        self.members@
    }

    /// The messages the room keeps, oldest first.
    pub closed spec fn history(&self) -> Seq<Seq<u8>> {
        messages_view(self.history@)
    }

    /// Every message posted so far, in order.
    pub closed spec fn posts(&self) -> Seq<Seq<u8>> {
        self.posts@
    }

    pub open spec fn wf(&self) -> bool {
        &&& self.history() == recent(self.posts())
        &&& self.members().dom().finite()
    }

    /// An empty room.
    pub fn new() -> (r: Room)
        ensures
            r.wf(),
            r.members() == Map::<u64, u64>::empty(),
            r.posts() == Seq::<Seq<u8>>::empty(),
    {
        let r = Room { members: HashMap::new(), history: VecDeque::new(), posts: Ghost(Seq::empty()) };
        proof {
            assert(r.history() =~= recent(r.posts()));
        }
        r
    }

    /// Admits `join.member`, now watched under `watch`, and answers with the
    /// recent history; a member that joins again keeps only its new watch.
    pub fn on_join(&mut self, join: &Join, watch: u64) -> (reply: JoinReply)
        requires
            old(self).wf(),
        ensures
            final(self).wf(),
            final(self).members() == old(self).members().insert(join.member, watch),
            final(self).posts() == old(self).posts(),
            reply.stale_watch == (if old(self).members().contains_key(join.member) {
                Some(old(self).members()[join.member])
            } else {
                None
            }),
            reply.reply_to == join.reply_to,
            messages_view(reply.joined.history@) == recent(old(self).posts()),
    {
        let stale_watch = self.members.insert(join.member, watch);
        let mut history: Vec<Vec<u8>> = Vec::new();
        let mut i: usize = 0;
        while i < self.history.len()
            invariant
                i <= self.history@.len(),
                history@.len() == i,
                forall|k: int| 0 <= k < i ==> #[trigger] history@[k]@ == self.history@[k]@,
            decreases self.history@.len() - i,
        {
            history.push(copy_bytes(&self.history[i]));
            i = i + 1;
        }
        proof {
            assert(messages_view(history@) =~= messages_view(self.history@));
        }
        JoinReply { stale_watch, reply_to: join.reply_to, joined: Joined { history } }
    }

    /// Passes `post.message` on to every member, and keeps it in the history.
    pub fn on_post(&mut self, post: Post) -> (reply: PostReply)
        requires
            old(self).wf(),
        ensures
            final(self).wf(),
            final(self).members() == old(self).members(),
            final(self).posts() == old(self).posts().push(post.message@),
            reply.recipients@.to_set() == old(self).members().dom(),
            reply.recipients@.no_duplicates(),
            reply.message.message@ == post.message@,
            reply.reply_to == post.reply_to,
    {
        let mut recipients: Vec<u64> = Vec::new();
        let ghost keys = vstd::std_specs::hash::spec_keys_iter(&self.members).remaining();
        proof {
            vstd::std_specs::hash::axiom_spec_keys_iter(&self.members);
        }
        for member in it: self.members.keys()
            invariant
                it.seq() == keys,
                recipients@ == keys.take(it.index() as int).unref(),
        {
            recipients.push(*member);
            proof {
                assert(recipients@ =~= keys.take(it.index() + 1).unref());
            }
        }
        proof {
            assert(recipients@ =~= keys.unref());
        }
        let message = Message { message: copy_bytes(&post.message) };
        let ghost old_history = self.history@;
        self.posts = Ghost(self.posts@.push(post.message@));
        self.history.push_back(post.message);
        proof {
            assert(messages_view(self.history@) =~= messages_view(old_history).push(
                message.message@,
            ));
        }
        let ghost pushed = self.history@;
        if self.history.len() > HISTORY_LIMIT {
            self.history.pop_front();
            proof {
                assert(messages_view(self.history@) =~= messages_view(pushed).subrange(
                    1,
                    pushed.len() as int,
                ));
            }
        }
        proof {
            let p = old(self).posts();
            let m = message.message@;
            if p.len() < HISTORY_LIMIT {
                assert(recent(p.push(m)) =~= p.push(m));
            } else {
                assert(recent(p.push(m)) =~= recent(p).push(m).subrange(1, HISTORY_LIMIT + 1));
            }
            assert(self.history() =~= recent(self.posts()));
        }
        PostReply { recipients, message, reply_to: post.reply_to }
    }

    /// Forgets `peer`, which is gone.
    pub fn on_down(&mut self, peer: u64)
        requires
            old(self).wf(),
        ensures
            final(self).wf(),
            final(self).members() == old(self).members().remove(peer),
            final(self).posts() == old(self).posts(),
    {
        self.members.remove(&peer);
    }
}

/// The room never keeps more than `HISTORY_LIMIT` messages.
pub proof fn lemma_history_bounded(posts: Seq<Seq<u8>>)
    ensures
        recent(posts).len() <= HISTORY_LIMIT,
        recent(posts).len() == (if posts.len() <= HISTORY_LIMIT {
            posts.len()
        } else {
            HISTORY_LIMIT as nat
        }),
{
}

/// A member that joins after a post receives that post, last; the history it
/// receives is the history before the post with the post appended, less the
/// oldest message when the history was full.
pub proof fn lemma_join_sees_latest_post(posts: Seq<Seq<u8>>, message: Seq<u8>)
    ensures
        recent(posts.push(message)).last() == message,
        recent(posts.push(message)) == (if recent(posts).len() < HISTORY_LIMIT {
            recent(posts).push(message)
        } else {
            recent(posts).drop_first().push(message)
        }),
{
    let p = posts.push(message);
    if posts.len() < HISTORY_LIMIT {
        assert(recent(p) =~= recent(posts).push(message));
    } else {
        assert(recent(p) =~= recent(posts).drop_first().push(message));
    }
}

/// A copy of a message.
fn copy_bytes(b: &Vec<u8>) -> (c: Vec<u8>)
    ensures
        c@ == b@,
{
    let mut c: Vec<u8> = Vec::new();
    let mut i: usize = 0;
    while i < b.len()
        invariant
            i <= b.len(),
            c@ == b@.take(i as int),
        decreases b.len() - i,
    {
        c.push(b[i]);
        i = i + 1;
        proof {
            assert(c@ =~= b@.take(i as int));
        }
    }
    proof {
        assert(b@.take(i as int) =~= b@);
    }
    c
}

} // verus!
