use vstd::prelude::*;

verus! {

/// One access-control rule: a subject and the privilege it is granted.
#[derive(Clone, Copy, Debug, PartialEq, Eq, Structural)]
pub struct AclEntry {
    pub subject: u64,
    pub privilege: u8,
}

/// The access-control store that accessors are evaluated against.
pub struct AclMgr {
    pub entries: Vec<AclEntry>,
}

/// The identity behind one exchange.
#[derive(Clone, Copy, Debug, PartialEq, Eq, Structural)]
pub struct Session {
    pub subject: u64,
}

/// The authorization context of one interaction.
#[derive(Clone, Copy, Debug, PartialEq, Eq, Structural)]
pub struct Accessor {
    pub subject: u64,
    pub privilege: u8,
}

/// The highest privilege that the rules in `entries` grant `subject`
/// (0 where none names it).
pub open spec fn granted(entries: Seq<AclEntry>, subject: u64) -> u8
    decreases entries.len(),
{
    if entries.len() == 0 {
        0
    } else {
        let prev = granted(entries.drop_last(), subject);
        let e = entries.last();
        if e.subject == subject && e.privilege > prev {
            e.privilege
        } else {
            prev
        }
    }
}

impl Accessor {
    pub fn for_session(session: &Session, acl: &AclMgr) -> (r: Accessor)
        ensures
            r.subject == session.subject,
            r.privilege == granted(acl.entries@, session.subject),
    {
        let mut best: u8 = 0;
        let mut i: usize = 0;
        while i < acl.entries.len()
            invariant
                i <= acl.entries@.len(),
                best == granted(acl.entries@.take(i as int), session.subject),
            decreases acl.entries@.len() - i,
        {
            let e = acl.entries[i];
            assert(acl.entries@.take(i as int + 1).drop_last() =~= acl.entries@.take(i as int));
            if e.subject == session.subject && e.privilege > best {
                best = e.privilege;
            }
            i = i + 1;
        }
        assert(acl.entries@.take(i as int) =~= acl.entries@);
        Accessor { subject: session.subject, privilege: best }
    }
}

} // verus!
