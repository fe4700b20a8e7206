//! The set of addresses that may be probed, built from a whitelist and a
//! blacklist of subnets.

use vstd::prelude::*;
use crate::bits::{covers, painted_value, Paint};
use crate::cidr::{line_meaning, parse_line, Line};
use crate::constraint::{
    lemma_count_is_number_of_addresses,
    lemma_count_total,
    Constraint,
    TreeNode,
    ADDRESS_SPACE,
    ADDR_ALLOWED,
    ADDR_DISALLOWED,
};

verus! {

/// Which of the two lists a line belongs to.
#[derive(Clone, Copy, Debug, PartialEq, Eq, Structural)]
pub enum ListKind {
    Whitelist,
    Blacklist,
}

/// A line of a subnet list that is no subnet: the list and the number of the
/// line in it, counted from 1.
#[derive(Clone, Copy, Debug, PartialEq, Eq, Structural)]
pub struct ParseError {
    pub list: ListKind,
    pub line: usize,
}

/// The painting steps that the lines of a list ask for, in their order, each
/// with the value `value`. Lines that are no subnet ask for nothing.
pub open spec fn paints_of(lines: Seq<Vec<u8>>, value: i32) -> Seq<Paint>
    decreases lines.len(),
{
    if lines.len() == 0 {
        Seq::empty()
    } else {
        let before = paints_of(lines.drop_last(), value);
        match line_meaning(lines.last()@) {
            Line::Subnet { prefix, len } => before.push(Paint { prefix, len: len as int, value }),
            _ => before,
        }
    }
}

/// The painting steps of a list that may be absent: none where it is.
pub open spec fn list_paints(list: Option<Vec<Vec<u8>>>, value: i32) -> Seq<Paint> {
    match list {
        Some(lines) => paints_of(lines@, value),
        None => Seq::empty(),
    }
}

/// Whether line `n`, counted from 1, is the first malformed line of `lines`.
pub open spec fn first_malformed(lines: Seq<Vec<u8>>, n: int) -> bool {
    &&& 1 <= n <= lines.len()
    &&& line_meaning(lines[n - 1]@) == Line::Malformed
    &&& forall|j: int| 0 <= j < n - 1 ==> line_meaning(#[trigger] lines[j]@) != Line::Malformed
}

/// Whether no line of `lines` is malformed.
pub open spec fn all_readable(lines: Seq<Vec<u8>>) -> bool {
    forall|j: int| 0 <= j < lines.len() ==> line_meaning(#[trigger] lines[j]@) != Line::Malformed
}

/// Painting with one list after another is painting with both in a row.
pub proof fn lemma_painted_twice(ground: i32, first: Seq<Paint>, second: Seq<Paint>, addr: u32)
    ensures
        painted_value(ground, first + second, addr) == painted_value(
            painted_value(ground, first, addr),
            second,
            addr,
        ),
    decreases second.len(),
{
    if second.len() == 0 {
        assert(first + second =~= first);
    } else {
        assert((first + second).drop_last() =~= first + second.drop_last());
        assert((first + second).last() == second.last());
        lemma_painted_twice(ground, first, second.drop_last(), addr);
    }
}

/// Paints every subnet of `lines` into the constraint with `value`, in the
/// order of the lines, and stops at the first malformed line with its number.
pub fn init(lines: &Vec<Vec<u8>>, value: i32, constraint: &mut Constraint) -> (r: Result<
    (),
    usize,
>)
    requires
        old(constraint).wf(),
    ensures
        final(constraint).wf(),
        old(constraint).binary() && (value == ADDR_ALLOWED || value == ADDR_DISALLOWED)
            ==> final(constraint).binary(),
        r.is_ok() <==> all_readable(lines@),
        r.is_ok() ==> forall|a: u32| #[trigger]
            final(constraint).value_of(a) == painted_value(
                old(constraint).value_of(a),
                paints_of(lines@, value),
                a,
            ),
        r matches Err(n) ==> first_malformed(lines@, n as int),
{
    let mut i: usize = 0;
    while i < lines.len()
        invariant
            i <= lines@.len(),
            constraint.wf(),
            old(constraint).binary() && (value == ADDR_ALLOWED || value == ADDR_DISALLOWED)
                ==> constraint.binary(),
            forall|j: int| 0 <= j < i ==> line_meaning(#[trigger] lines@[j]@) != Line::Malformed,
            forall|a: u32| #[trigger]
                constraint.value_of(a) == painted_value(
                    old(constraint).value_of(a),
                    paints_of(lines@.take(i as int), value),
                    a,
                ),
        decreases lines@.len() - i,
    {
        let ghost before = *constraint;
        let ghost done = lines@.take(i as int);
        let ghost next = lines@.take(i + 1);
        assert(next.drop_last() =~= done);
        assert(next.last() == lines@[i as int]);
        match parse_line(lines[i].as_slice()) {
            Line::Blank => {},
            Line::Subnet { prefix, len } => {
                constraint.set(prefix, len, value);
                proof {
                    let paint = Paint { prefix, len: len as int, value };
                    assert(paints_of(next, value) == paints_of(done, value).push(paint));
                    assert forall|a: u32| #[trigger]
                        constraint.value_of(a) == painted_value(
                            old(constraint).value_of(a),
                            paints_of(next, value),
                            a,
                        ) by {
                        assert(paints_of(next, value).drop_last() =~= paints_of(done, value));
                        assert(paints_of(next, value).last() == paint);
                        assert(constraint.value_of(a) == if covers(prefix, len as int, a) {
                            value
                        } else {
                            before.value_of(a)
                        });
                    }
                }
            },
            Line::Malformed => {
                return Err(i + 1);
            },
        }
        i = i + 1;
    }
    assert(lines@.take(i as int) =~= lines@);
    Ok(())
}

/// The addresses that may be probed.
pub struct Blacklist {
    constraint: Constraint,
}

impl Blacklist {
    /// Whether `addr` may be probed.
    pub closed spec fn allows(&self, addr: u32) -> bool {
        self.constraint.value_of(addr) == ADDR_ALLOWED
    }

    /// The addresses that may be probed.
    pub open spec fn allowed(&self) -> Set<u32> {
        Set::new(|a: u32| self.allows(a))
    }

    /// The number of addresses that may be probed.
    pub closed spec fn allowed_count(&self) -> nat {
        self.constraint.count_of(ADDR_ALLOWED)
    }

    /// The number of addresses that must not be probed.
    pub closed spec fn disallowed_count(&self) -> nat {
        self.constraint.count_of(ADDR_DISALLOWED)
    }

    /// Whether lookups go through the radix table.
    pub closed spec fn optimized(&self) -> bool {
        self.constraint.optimized
    }

    /// The tree is well formed and holds nothing but the two values.
    pub closed spec fn wf(&self) -> bool {
        self.constraint.wf() && self.constraint.binary()
    }

    /// The value of `addr` in a list made from the given lines: the whitelist
    /// is painted first, on a ground that is disallowed where there is a
    /// whitelist and allowed where there is none, and the blacklist after it.
    pub open spec fn listed_value(
        whitelist: Option<Vec<Vec<u8>>>,
        blacklist: Option<Vec<Vec<u8>>>,
        addr: u32,
    ) -> i32 {
        let ground = if whitelist.is_some() {
            ADDR_DISALLOWED
        } else {
            ADDR_ALLOWED
        };
        painted_value(
            ground,
            list_paints(whitelist, ADDR_ALLOWED) + list_paints(blacklist, ADDR_DISALLOWED),
            addr,
        )
    }

    /// Whether the lists have no malformed line.
    pub open spec fn lists_readable(
        whitelist: Option<Vec<Vec<u8>>>,
        blacklist: Option<Vec<Vec<u8>>>,
    ) -> bool {
        &&& whitelist matches Some(lines) ==> all_readable(lines@)
        &&& blacklist matches Some(lines) ==> all_readable(lines@)
    }

    /// Whether `e` names the first malformed line of the lists, the whitelist
    /// being read first.
    pub open spec fn first_error(
        whitelist: Option<Vec<Vec<u8>>>,
        blacklist: Option<Vec<Vec<u8>>>,
        e: ParseError,
    ) -> bool {
        match e.list {
            ListKind::Whitelist => whitelist.is_some() && first_malformed(
                whitelist.unwrap()@,
                e.line as int,
            ),
            ListKind::Blacklist => {
                &&& whitelist.is_some() ==> all_readable(whitelist.unwrap()@)
                &&& blacklist.is_some()
                &&& first_malformed(blacklist.unwrap()@, e.line as int)
            },
        }
    }

    /// Builds the set from the lines of a whitelist and of a blacklist, and
    /// fills the radix table. The first malformed line, of the whitelist
    /// first, is the error.
    pub fn new(whitelist: Option<Vec<Vec<u8>>>, blacklist: Option<Vec<Vec<u8>>>) -> (r: Result<
        Self,
        ParseError,
    >)
        ensures
            r.is_ok() <==> Self::lists_readable(whitelist, blacklist),
            r matches Ok(b) ==> b.wf() && b.optimized() && forall|a: u32| #[trigger]
                b.allows(a) == (Self::listed_value(whitelist, blacklist, a) == ADDR_ALLOWED),
            r matches Err(e) ==> Self::first_error(whitelist, blacklist, e),
    {
        let ground = if whitelist.is_some() {
            ADDR_DISALLOWED
        } else {
            ADDR_ALLOWED
        };
        let mut constraint = Constraint::new(TreeNode::new(ground));
        let ghost white = list_paints(whitelist, ADDR_ALLOWED);
        let ghost black = list_paints(blacklist, ADDR_DISALLOWED);
        if let Some(lines) = &whitelist {
            match init(lines, ADDR_ALLOWED, &mut constraint) {
                Ok(()) => {},
                Err(line) => {
                    return Err(ParseError { list: ListKind::Whitelist, line });
                },
            }
        }
        assert(forall|a: u32| #[trigger]
            constraint.value_of(a) == painted_value(ground, white, a));
        let ghost middle = constraint;
        if let Some(lines) = &blacklist {
            match init(lines, ADDR_DISALLOWED, &mut constraint) {
                Ok(()) => {},
                Err(line) => {
                    return Err(ParseError { list: ListKind::Blacklist, line });
                },
            }
        }
        assert forall|a: u32| #[trigger]
            constraint.value_of(a) == painted_value(ground, white + black, a) by {
            assert(constraint.value_of(a) == painted_value(middle.value_of(a), black, a));
            lemma_painted_twice(ground, white, black, a);
        }
        let ghost painted = constraint;
        constraint.optimize();
        let b = Blacklist { constraint };
        assert forall|a: u32| #[trigger]
            b.allows(a) == (Self::listed_value(whitelist, blacklist, a) == ADDR_ALLOWED) by {
            assert(b.constraint.value_of(a) == painted.value_of(a));
        }
        Ok(b)
    }

    /// The number of addresses that may be probed.
    pub fn count_allowed(&self) -> (n: u64)
        requires
            self.wf(),
        ensures
            n == self.allowed_count(),
            n == self.allowed().len(),
            n + self.disallowed_count() == ADDRESS_SPACE,
    {
        proof {
            lemma_count_total(self.constraint);
            self.lemma_allowed_count();
        }
        self.constraint.count_ips(ADDR_ALLOWED)
    }

    /// The count of allowed addresses is the number of allowed addresses.
    pub proof fn lemma_allowed_count(&self)
        requires
            self.wf(),
        ensures
            self.allowed().finite(),
            self.allowed_count() == self.allowed().len(),
    {
        lemma_count_is_number_of_addresses(self.constraint, ADDR_ALLOWED);
        assert(self.allowed() =~= self.constraint.addresses_with(ADDR_ALLOWED));
    }

    /// The number of addresses that must not be probed.
    pub fn count_not_allowed(&self) -> (n: u64)
        requires
            self.wf(),
        ensures
            n == self.disallowed_count(),
            n + self.allowed_count() == ADDRESS_SPACE,
    {
        proof {
            lemma_count_total(self.constraint);
        }
        self.constraint.count_ips(ADDR_DISALLOWED)
    }

    pub fn is_allowed(&self, s_addr: u32) -> (ok: bool)
        requires
            self.wf(),
        ensures
            ok == self.allows(s_addr),
    {
        self.constraint.lookup(s_addr) == ADDR_ALLOWED
    }

    /// Forbids the subnet `prefix/prefix_len`. Lookups leave the radix table
    /// from here on.
    pub fn blacklist_prefix(&mut self, prefix: u32, prefix_len: i32)
        requires
            old(self).wf(),
            0 <= prefix_len <= 32,
        ensures
            final(self).wf(),
            !final(self).optimized(),
            forall|a: u32| #[trigger]
                final(self).allows(a) == (old(self).allows(a) && !covers(
                    prefix,
                    prefix_len as int,
                    a,
                )),
    {
        self.constraint.set(prefix, prefix_len, ADDR_DISALLOWED);
    }

    /// Allows the subnet `prefix/prefix_len`. Lookups leave the radix table
    /// from here on.
    pub fn whitelist_prefix(&mut self, prefix: u32, prefix_len: i32)
        requires
            old(self).wf(),
            0 <= prefix_len <= 32,
        ensures
            final(self).wf(),
            !final(self).optimized(),
            forall|a: u32| #[trigger]
                final(self).allows(a) == (old(self).allows(a) || covers(
                    prefix,
                    prefix_len as int,
                    a,
                )),
    {
        self.constraint.set(prefix, prefix_len, ADDR_ALLOWED);
    }
}

} // verus!
