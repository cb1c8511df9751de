//! The link queries a Node read runs, one per direction, mode and filter.

use crate::model::links::{Direction, LinkMode};
use crate::types::schema::reads_link;
use vstd::prelude::*;

verus! {

/// The column holding this Node and the one holding the far Node.
pub open spec fn ends(direction: Direction) -> (Seq<char>, Seq<char>) {
    match direction {
        Direction::Out => ("source"@, "target"@),
        Direction::In => ("target"@, "source"@),
    }
}

/// The far Node's columns a mode reads.
pub open spec fn columns(mode: LinkMode) -> Seq<char> {
    match mode {
        LinkMode::Bare => ""@,
        LinkMode::Summary => ",n.type,n.summary"@,
        LinkMode::Full => ",n.type,n.summary,n.attrs"@,
    }
}

/// The join that reads the far Node, unless only ids are wanted.
pub open spec fn join(mode: LinkMode, far: Seq<char>) -> Seq<char> {
    match mode {
        LinkMode::Bare => ""@,
        _ => " JOIN nodes n ON n.id=l."@ + far,
    }
}

pub open spec fn link_sql_spec(direction: Direction, mode: LinkMode, by_relation: bool) -> Seq<char> {
    let (near, far) = ends(direction);
    "SELECT l.relation,l."@ + far + columns(mode) + " FROM links l"@ + join(mode, far)
        + " WHERE l."@ + near + "=?1"@ + (if by_relation {
        " AND l.relation=?3"@
    } else {
        ""@
    }) + " ORDER BY l.relation,l."@ + far + " LIMIT ?2"@
}

/// One index-ordered scan of a Node's links in one direction, optionally of
/// one relation, with as much of the far Node as the mode asks.
pub fn build_sql(direction: Direction, mode: LinkMode, by_relation: bool) -> (s: String)
    ensures
        s@ == link_sql_spec(direction, mode, by_relation),
{
    let (near, far) = match direction {
        Direction::Out => ("source", "target"),
        Direction::In => ("target", "source"),
    };
    let mut s = String::new();
    s.append("SELECT l.relation,l.");
    s.append(far);
    match mode {
        LinkMode::Bare => s.append(""),
        LinkMode::Summary => s.append(",n.type,n.summary"),
        LinkMode::Full => s.append(",n.type,n.summary,n.attrs"),
    }
    s.append(" FROM links l");
    match mode {
        LinkMode::Bare => s.append(""),
        _ => {
            s.append(" JOIN nodes n ON n.id=l.");
            s.append(far);
        },
    }
    s.append(" WHERE l.");
    s.append(near);
    s.append("=?1");
    if by_relation {
        s.append(" AND l.relation=?3");
    } else {
        s.append("");
    }
    s.append(" ORDER BY l.relation,l.");
    s.append(far);
    s.append(" LIMIT ?2");
    proof {
        let (n, f) = ends(direction);
        assert(near@ == n && far@ == f);
        assert(s@ =~= link_sql_spec(direction, mode, by_relation));
    }
    s
}

/// Where a query sits among the twelve: direction, then mode, then filter.
pub fn sql_slot(direction: Direction, mode: LinkMode, by_relation: bool) -> (i: usize)
    ensures
        i < 12,
        i == (match direction {
            Direction::Out => 0usize,
            Direction::In => 6,
        }) + (match mode {
            LinkMode::Bare => 0usize,
            LinkMode::Summary => 2,
            LinkMode::Full => 4,
        }) + (if by_relation {
            1usize
        } else {
            0
        }),
{
    let d: usize = match direction {
        Direction::Out => 0,
        Direction::In => 6,
    };
    let m: usize = match mode {
        LinkMode::Bare => 0,
        LinkMode::Summary => 2,
        LinkMode::Full => 4,
    };
    let r: usize = if by_relation {
        1
    } else {
        0
    };
    d + m + r
}

/// Rows are read up to one past the limit; that extra row only tells that
/// more links exist.
pub fn keep_row(kept: usize, limit: usize) -> (b: bool)
    ensures
        b == (kept < limit),
{
    kept < limit
}

/// The link query for a direction, a mode and an optional relation filter.
pub fn link_sql(direction: Direction, mode: LinkMode, by_relation: bool) -> (s: String)
    ensures
        s@ == link_sql_spec(direction, mode, by_relation),
{
    build_sql(direction, mode, by_relation)
}


/// The value a link row (source, target) holds in a column.
pub open spec fn column(link: (u32, u32), name: Seq<char>) -> Option<u32> {
    if name == "source"@ {
        Some(link.0)
    } else if name == "target"@ {
        Some(link.1)
    } else {
        None
    }
}

/// A Node's link read in one direction matches the rows whose near column
/// holds the Node and returns their far column: exactly the Nodes a link
/// field of that direction reads.
pub proof fn law_link_columns(d: Direction, id: u32, n: u32, link: (u32, u32))
    ensures
        (reads_link(d, id, link) == Some(n)) == (column(link, ends(d).0) == Some(id) && column(link, ends(d).1)
            == Some(n)),
{
    reveal_strlit("source");
    reveal_strlit("target");
    assert("source"@[0] != "target"@[0]);
}

} // verus!
