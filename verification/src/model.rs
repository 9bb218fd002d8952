//! Plain records for catalog titles, relation edges, lookup replies and
//! failures, and the configurable relation filter that decides which edges
//! join two titles into one franchise.

use vstd::prelude::*;
use crate::date::FuzzyDate;

verus! {

/// Opaque integer identifier of a catalog title; the graph's vertex type.
pub type TitleId = u64;

/// How a related title is linked to the one that lists it.
#[derive(Clone, Copy, Debug, PartialEq, Eq, Structural)]
pub enum RelationKind {
    Adaptation,
    Prequel,
    Sequel,
    Parent,
    SideStory,
    Character,
    Summary,
    Alternative,
    SpinOff,
    Other,
    Source,
    Compilation,
    Contains,
}

/// The medium of a related title, where the catalog reports one.
#[derive(Clone, Copy, Debug, PartialEq, Eq, Structural)]
pub enum MediaKind {
    Anime,
    Manga,
}

/// Which edges count as same-franchise edges. The policy is explicit
/// configuration: callers choose one at construction time.
#[derive(Clone, Copy, Debug, PartialEq, Eq, Structural)]
pub enum FilterPolicy {
    /// Core relation kinds only, and the related title must be an anime.
    KindAware,
    /// Core relation kinds only, whatever the related title's medium.
    KindBlind,
    /// Everything except adaptation, character and source links.
    ExclusionList,
}

/// One edge of a title's relation list.
#[derive(Clone, Copy, Debug)]
pub struct RelationEdge {
    pub relation_kind: RelationKind,
    pub related_id: TitleId,
    pub related_kind: Option<MediaKind>,
}

/// One catalog title, immutable once fetched.
#[derive(Clone, Debug)]
pub struct TitleRecord {
    pub id: TitleId,
    pub display_title: String,
    pub release_date: FuzzyDate,
    pub related_edges: Vec<RelationEdge>,
}

/// One page of a lookup query: the titles returned and whether more pages
/// follow.
#[derive(Clone, Debug)]
pub struct PageResult {
    pub has_next_page: bool,
    pub titles: Vec<TitleRecord>,
}

/// One error entry of a service-reported failure.
#[derive(Clone, Debug)]
pub struct ServiceError {
    pub status: u16,
    pub message: String,
}

/// Why a build failed. Every failure aborts the whole build; nothing is
/// retried and no partial result is returned.
#[derive(Clone, Debug)]
pub enum FetchError {
    /// The transport layer failed before a reply arrived.
    Transport,
    /// The reply matched neither the success nor the error shape.
    Decode,
    /// The service itself reported a failure.
    Service { status: u16, message: String },
}

/// A decoded reply from the catalog service: data, reported failures, or a
/// shape the decoder did not recognize.
#[derive(Clone, Debug)]
pub enum ServiceReply<T> {
    Data(T),
    Failures(Vec<ServiceError>),
    Unrecognized,
}

/// The relation kinds every policy treats as same-franchise links.
pub open spec fn core_relation(k: RelationKind) -> bool {
    match k {
        RelationKind::Prequel => true,
        RelationKind::Sequel => true,
        RelationKind::Parent => true,
        RelationKind::SideStory => true,
        RelationKind::Summary => true,
        RelationKind::Alternative => true,
        RelationKind::SpinOff => true,
        _ => false,
    }
}

/// Whether a (relation kind, related medium) pair denotes a same-franchise
/// edge under the given policy.
pub open spec fn edge_qualifies(
    policy: FilterPolicy,
    kind: RelationKind,
    related: Option<MediaKind>,
) -> bool {
    match policy {
        FilterPolicy::KindAware => core_relation(kind) && related == Some(MediaKind::Anime),
        FilterPolicy::KindBlind => core_relation(kind),
        FilterPolicy::ExclusionList => match kind {
            RelationKind::Adaptation => false,
            RelationKind::Character => false,
            RelationKind::Source => false,
            _ => true,
        },
    }
}

/// Whether one relation edge qualifies under the given policy.
pub open spec fn qualifying(policy: FilterPolicy, e: RelationEdge) -> bool {
    edge_qualifies(policy, e.relation_kind, e.related_kind)
}

/// Decides whether an edge joins two titles into one franchise. Pure and
/// total: the result depends on the policy and the pair alone.
pub fn is_franchise_edge(
    policy: FilterPolicy,
    kind: RelationKind,
    related: Option<MediaKind>,
) -> (r: bool)
    ensures
        r == edge_qualifies(policy, kind, related),
{
    let core = match kind {
        RelationKind::Prequel => true,
        RelationKind::Sequel => true,
        RelationKind::Parent => true,
        RelationKind::SideStory => true,
        RelationKind::Summary => true,
        RelationKind::Alternative => true,
        RelationKind::SpinOff => true,
        _ => false,
    };
    match policy {
        FilterPolicy::KindAware => core && matches!(related, Some(MediaKind::Anime)),
        FilterPolicy::KindBlind => core,
        FilterPolicy::ExclusionList => !matches!(
            kind,
            RelationKind::Adaptation | RelationKind::Character | RelationKind::Source
        ),
    }
}

/// Interprets a decoded list-query reply, as the catalog client hands it over.
/// The user's completed list is the first list group of the reply; a reply
/// with no list groups, with an empty failure list, or of an unrecognized
/// shape is a decode failure, and a reported failure surfaces its first
/// entry's status and message.
pub fn media_list_outcome(reply: ServiceReply<Vec<Vec<TitleRecord>>>) -> (r: Result<
    Vec<TitleRecord>,
    FetchError,
>)
    ensures
        (match reply {
            ServiceReply::Data(lists) => if lists@.len() > 0 {
                r == Ok::<Vec<TitleRecord>, FetchError>(lists@[0])
            } else {
                r == Err::<Vec<TitleRecord>, FetchError>(FetchError::Decode)
            },
            ServiceReply::Failures(es) => if es@.len() > 0 {
                r == Err::<Vec<TitleRecord>, FetchError>(
                    (FetchError::Service { status: es@[0].status, message: es@[0].message }),
                )
            } else {
                r == Err::<Vec<TitleRecord>, FetchError>(FetchError::Decode)
            },
            ServiceReply::Unrecognized => r == Err::<Vec<TitleRecord>, FetchError>(
                FetchError::Decode,
            ),
        }),
{
    match reply {
        ServiceReply::Data(mut lists) => {
            if lists.len() > 0 {
                Ok(lists.remove(0))
            } else {
                Err(FetchError::Decode)
            }
        },
        ServiceReply::Failures(mut es) => {
            if es.len() > 0 {
                let e = es.remove(0);
                Err(FetchError::Service { status: e.status, message: e.message })
            } else {
                Err(FetchError::Decode)
            }
        },
        ServiceReply::Unrecognized => Err(FetchError::Decode),
    }
}

} // verus!
