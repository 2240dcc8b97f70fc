//! The responses that clients of the gateway read.

use vstd::prelude::*;

use crate::gateway::hex::{hex_of, uuid_to_hex};
use crate::gateway::json::{
    jsons_view, members_view, object_of, put_member, value_json, value_to_json, with_member, Json,
    JsonView, Members,
};
use crate::query::ast::{
    BlockView, ColumnData, Edge, EdgeBlock, EdgeBlockView, EdgeView, EntityBlock, QueryResult,
    ResultView,
};
use crate::server::mutation::MutationResult;
use crate::server::protocol::{ReplicationRole, ReplicationStatus};
use crate::text::texts;

verus! {

/// A response with data.
#[derive(Debug)]
pub struct SuccessResponse<T> {
    /// Whether the request was met.
    pub success: bool,
    /// The data.
    pub data: T,
}

impl<T> SuccessResponse<T> {
    /// A response to a request that was met.
    pub fn new(data: T) -> (r: SuccessResponse<T>)
        ensures
            r == (SuccessResponse { success: true, data }),
    {
        SuccessResponse { success: true, data }
    }
}

/// How the gateway is.
#[derive(Debug)]
pub struct HealthResponse {
    /// Its status.
    pub status: String,
    /// Its version.
    pub version: String,
    /// Whether it is connected to the server.
    pub ormdb_connected: bool,
}

/// The response to a query.
#[derive(Debug)]
pub struct QueryResponse {
    /// Whether the query was met.
    pub success: bool,
    /// What it gave.
    pub data: QueryResultJson,
    /// About what it gave.
    pub meta: QueryMeta,
}

/// What a query gave, as clients read it.
#[derive(Debug)]
pub struct QueryResultJson {
    /// The entities, by type.
    pub entities: Vec<EntityBlockJson>,
    /// The edges, by relation.
    pub edges: Vec<EdgeBlockJson>,
}

/// Entities of a type, as clients read them.
#[derive(Debug)]
pub struct EntityBlockJson {
    /// The type.
    pub entity: String,
    /// The entities, each with its fields by name.
    pub rows: Vec<Json>,
}

/// Edges of a relation, as clients read them.
#[derive(Debug)]
pub struct EdgeBlockJson {
    /// The relation.
    pub relation: String,
    /// The edges.
    pub edges: Vec<EdgeJson>,
}

/// An edge, as clients read it.
#[derive(Debug)]
pub struct EdgeJson {
    /// The entity that it comes from, in hexadecimal notation.
    pub from_id: String,
    /// The entity that it goes to, in hexadecimal notation.
    pub to_id: String,
}

/// About what a query gave.
#[derive(Debug, Clone, Copy, PartialEq, Eq, Structural)]
pub struct QueryMeta {
    /// How many entities there are.
    pub total_entities: usize,
    /// How many edges there are.
    pub total_edges: usize,
    /// Whether there are more entities of the root type.
    pub has_more: bool,
}

/// The response to a mutation.
#[derive(Debug)]
pub struct MutationResponse {
    /// Whether the mutation was made.
    pub success: bool,
    /// How many entities it changed.
    pub affected: u64,
    /// The entities that it inserted, in hexadecimal notation.
    pub inserted_ids: Vec<String>,
}

/// The response to an aggregation.
#[derive(Debug)]
pub struct AggregateResponse {
    /// Whether the aggregation was met.
    pub success: bool,
    /// What it gave.
    pub data: AggregateDataJson,
}

/// What an aggregation gave, as clients read it.
#[derive(Debug)]
pub struct AggregateDataJson {
    /// The entities' type.
    pub entity: String,
    /// The values.
    pub values: Vec<AggregateValueJson>,
}

/// A value that was aggregated, as clients read it.
#[derive(Debug)]
pub struct AggregateValueJson {
    /// The function.
    pub function: String,
    /// The field, where the function takes one.
    pub field: Option<String>,
    /// The value.
    pub value: Json,
}

/// The response on replication.
#[derive(Debug)]
pub struct ReplicationStatusResponse {
    /// Whether the request was met.
    pub success: bool,
    /// How replication stands.
    pub data: ReplicationStatusJson,
}

/// How replication stands, as clients read it.
#[derive(Debug)]
pub struct ReplicationStatusJson {
    /// What the server is.
    pub role: String,
    /// Whom it follows.
    pub primary_addr: Option<String>,
    /// The last change.
    pub current_lsn: u64,
    /// How many changes it is behind.
    pub lag_entries: u64,
    /// How many milliseconds it is behind.
    pub lag_ms: u64,
}

/// The response with changes.
#[derive(Debug)]
pub struct StreamChangesResponseJson {
    /// Whether the request was met.
    pub success: bool,
    /// The changes.
    pub entries: Vec<ChangeLogEntryJson>,
    /// Where to go on.
    pub next_lsn: u64,
    /// Whether there are more.
    pub has_more: bool,
}

/// A change, as clients read it.
#[derive(Debug)]
pub struct ChangeLogEntryJson {
    /// Its place in the log.
    pub lsn: u64,
    /// When it was made, in microseconds.
    pub timestamp: u64,
    /// The entity's type.
    pub entity_type: String,
    /// The entity, in hexadecimal notation.
    pub entity_id: String,
    /// What happened.
    pub change_type: String,
    /// The fields that changed.
    pub changed_fields: Vec<String>,
    /// The version of the schema.
    pub schema_version: u64,
}

/// The members of an entity: its identifier, and its first columns.
pub open spec fn row_members(b: BlockView, row: int, n: nat) -> Members
    decreases n,
{
    if n == 0 {
        seq![("id"@, JsonView::Text(hex_of(b.ids[row])))]
    } else {
        with_member(
            row_members(b, row, (n - 1) as nat),
            b.columns[n - 1].name,
            value_json(b.columns[n - 1].values[row]),
        )
    }
}

/// The entities of a block, as clients read them.
pub open spec fn block_rows(b: BlockView) -> Seq<JsonView> {
    Seq::new(b.ids.len(), |i: int| JsonView::Object(row_members(b, i, b.columns.len())))
}

/// An edge in hexadecimal notation.
pub open spec fn edge_json(e: EdgeView) -> (Seq<char>, Seq<char>) {
    (hex_of(e.from_id), hex_of(e.to_id))
}

/// Edges in hexadecimal notation.
pub open spec fn edges_json(edges: Seq<EdgeView>) -> Seq<(Seq<char>, Seq<char>)> {
    edges.map_values(|e: EdgeView| edge_json(e))
}

/// Edges as clients read them, in mathematical terms.
pub open spec fn edge_texts(edges: Seq<EdgeJson>) -> Seq<(Seq<char>, Seq<char>)> {
    edges.map_values(|e: EdgeJson| (e.from_id@, e.to_id@))
}

/// How many entities there are in the first blocks.
pub open spec fn count_entities_in(blocks: Seq<BlockView>, n: nat) -> nat
    decreases n,
{
    if n == 0 {
        0
    } else {
        count_entities_in(blocks, (n - 1) as nat) + blocks[n - 1].ids.len()
    }
}

/// How many edges there are in the first blocks.
pub open spec fn count_edges_in(blocks: Seq<EdgeBlockView>, n: nat) -> nat
    decreases n,
{
    if n == 0 {
        0
    } else {
        count_edges_in(blocks, (n - 1) as nat) + blocks[n - 1].edges.len()
    }
}

proof fn lemma_counts_grow(r: ResultView, i: nat)
    ensures
        i <= r.entities.len() ==> count_entities_in(r.entities, i) <= count_entities_in(
            r.entities,
            r.entities.len(),
        ),
        i <= r.edges.len() ==> count_edges_in(r.edges, i) <= count_edges_in(
            r.edges,
            r.edges.len(),
        ),
    decreases r.entities.len() + r.edges.len() - i,
{
    if i < r.entities.len() || i < r.edges.len() {
        lemma_counts_grow(r, i + 1);
    }
}

/// Every column of every block has a value for each of its entities.
pub open spec fn filled(r: ResultView) -> bool {
    forall|k: int, c: int|
        0 <= k < r.entities.len() && 0 <= c < r.entities[k].columns.len()
            ==> r.entities[k].ids.len() <= (#[trigger] r.entities[k].columns[c]).values.len()
}

fn row_of(block: &EntityBlock, row: usize) -> (j: Json)
    requires
        row < block@.ids.len(),
        forall|c: int|
            0 <= c < block@.columns.len() ==> block@.ids.len() <= (
            #[trigger] block@.columns[c]).values.len(),
    ensures
        j@ == JsonView::Object(row_members(block@, row as int, block@.columns.len())),
{
    let mut m: Vec<(String, Json)> = Vec::new();
    m.push(("id".to_owned(), Json::Text(uuid_to_hex(&block.ids[row]))));
    assert(members_view(m@) =~= row_members(block@, row as int, 0));
    let mut c: usize = 0;
    while c < block.columns.len()
        invariant
            c <= block.columns@.len(),
            row < block@.ids.len(),
            block@.columns.len() == block.columns@.len(),
            forall|c: int|
                0 <= c < block@.columns.len() ==> block@.ids.len() <= (
                #[trigger] block@.columns[c]).values.len(),
            members_view(m@) == row_members(block@, row as int, c as nat),
        decreases block.columns@.len() - c,
    {
        let column: &ColumnData = &block.columns[c];
        assert(block@.columns[c as int] == column@);
        assert(column@.values[row as int] == column.values@[row as int]@);
        let value: Json = value_to_json(&column.values[row]);
        put_member(&mut m, column.name.clone(), value);
        c = c + 1;
    }
    object_of(m)
}

fn block_of(block: &EntityBlock) -> (b: EntityBlockJson)
    requires
        forall|c: int|
            0 <= c < block@.columns.len() ==> block@.ids.len() <= (
            #[trigger] block@.columns[c]).values.len(),
    ensures
        b.entity@ == block@.entity,
        jsons_view(b.rows@) == block_rows(block@),
{
    let mut rows: Vec<Json> = Vec::new();
    let mut i: usize = 0;
    while i < block.ids.len()
        invariant
            i <= block.ids@.len(),
            block@.ids.len() == block.ids@.len(),
            forall|c: int|
                0 <= c < block@.columns.len() ==> block@.ids.len() <= (
                #[trigger] block@.columns[c]).values.len(),
            rows@.len() == i,
            forall|k: int| 0 <= k < i ==> (#[trigger] rows@[k])@ == block_rows(block@)[k],
        decreases block.ids@.len() - i,
    {
        rows.push(row_of(block, i));
        i = i + 1;
    }
    assert(jsons_view(rows@) =~= block_rows(block@));
    EntityBlockJson { entity: block.entity.clone(), rows }
}

fn edge_block_of(block: &EdgeBlock) -> (b: EdgeBlockJson)
    ensures
        b.relation@ == block@.relation,
        edge_texts(b.edges@) == edges_json(block@.edges),
{
    let mut edges: Vec<EdgeJson> = Vec::new();
    let mut i: usize = 0;
    while i < block.edges.len()
        invariant
            i <= block.edges@.len(),
            edges@.len() == i,
            forall|k: int|
                0 <= k < i ==> edge_json(block.edges@[k]@) == (
                    (#[trigger] edges@[k]).from_id@,
                    edges@[k].to_id@,
                ),
        decreases block.edges@.len() - i,
    {
        let e: &Edge = &block.edges[i];
        edges.push(
            EdgeJson { from_id: uuid_to_hex(&e.from_id), to_id: uuid_to_hex(&e.to_id) },
        );
        i = i + 1;
    }
    assert(edge_texts(edges@) =~= edges_json(block@.edges));
    EdgeBlockJson { relation: block.relation.clone(), edges }
}

impl QueryResponse {
    /// What a query gave, as clients read it.
    pub fn from_result(result: &QueryResult) -> (r: QueryResponse)
        requires
            filled(result@),
            count_entities_in(result@.entities, result@.entities.len()) <= usize::MAX,
            count_edges_in(result@.edges, result@.edges.len()) <= usize::MAX,
        ensures
            r.success,
            r.data.entities@.len() == result@.entities.len(),
            forall|k: int|
                0 <= k < r.data.entities@.len() ==> {
                    &&& (#[trigger] r.data.entities@[k]).entity@ == result@.entities[k].entity
                    &&& jsons_view(r.data.entities@[k].rows@) == block_rows(result@.entities[k])
                },
            r.data.edges@.len() == result@.edges.len(),
            forall|k: int|
                0 <= k < r.data.edges@.len() ==> {
                    &&& (#[trigger] r.data.edges@[k]).relation@ == result@.edges[k].relation
                    &&& edge_texts(r.data.edges@[k].edges@) == edges_json(result@.edges[k].edges)
                },
            r.meta.total_entities == count_entities_in(result@.entities, result@.entities.len()),
            r.meta.total_edges == count_edges_in(result@.edges, result@.edges.len()),
            r.meta.has_more == result@.has_more,
    {
        let mut entities: Vec<EntityBlockJson> = Vec::new();
        let mut total_entities: usize = 0;
        let mut i: usize = 0;
        while i < result.entities.len()
            invariant
                i <= result.entities@.len(),
                result@.entities.len() == result.entities@.len(),
                filled(result@),
                count_entities_in(result@.entities, result@.entities.len()) <= usize::MAX,
                total_entities == count_entities_in(result@.entities, i as nat),
                entities@.len() == i,
                forall|k: int|
                    0 <= k < i ==> {
                        &&& (#[trigger] entities@[k]).entity@ == result@.entities[k].entity
                        &&& jsons_view(entities@[k].rows@) == block_rows(result@.entities[k])
                    },
            decreases result.entities@.len() - i,
        {
            assert(result@.entities[i as int] == result.entities@[i as int]@);
            proof {
                lemma_counts_grow(result@, (i + 1) as nat);
            }
            entities.push(block_of(&result.entities[i]));
            total_entities = total_entities + result.entities[i].ids.len();
            i = i + 1;
        }
        let mut edges: Vec<EdgeBlockJson> = Vec::new();
        let mut total_edges: usize = 0;
        let mut j: usize = 0;
        while j < result.edges.len()
            invariant
                j <= result.edges@.len(),
                result@.edges.len() == result.edges@.len(),
                count_edges_in(result@.edges, result@.edges.len()) <= usize::MAX,
                total_edges == count_edges_in(result@.edges, j as nat),
                edges@.len() == j,
                forall|k: int|
                    0 <= k < j ==> {
                        &&& (#[trigger] edges@[k]).relation@ == result@.edges[k].relation
                        &&& edge_texts(edges@[k].edges@) == edges_json(result@.edges[k].edges)
                    },
            decreases result.edges@.len() - j,
        {
            assert(result@.edges[j as int] == result.edges@[j as int]@);
            proof {
                lemma_counts_grow(result@, (j + 1) as nat);
            }
            edges.push(edge_block_of(&result.edges[j]));
            total_edges = total_edges + result.edges[j].edges.len();
            j = j + 1;
        }
        QueryResponse {
            success: true,
            data: QueryResultJson { entities, edges },
            meta: QueryMeta { total_entities, total_edges, has_more: result.has_more },
        }
    }
}

impl MutationResponse {
    /// What a mutation did, as clients read it.
    pub fn from_result(result: &MutationResult) -> (r: MutationResponse)
        ensures
            r.success,
            r.affected == result@.affected,
            texts(r.inserted_ids@) == result@.inserted_ids.map_values(|id: Seq<u8>| hex_of(id)),
    {
        let mut ids: Vec<String> = Vec::new();
        let mut i: usize = 0;
        while i < result.inserted_ids.len()
            invariant
                i <= result.inserted_ids@.len(),
                ids@.len() == i,
                forall|k: int|
                    0 <= k < i ==> (#[trigger] ids@[k])@ == hex_of(result.inserted_ids@[k]@),
            decreases result.inserted_ids@.len() - i,
        {
            ids.push(uuid_to_hex(&result.inserted_ids[i]));
            i = i + 1;
        }
        assert(texts(ids@) =~= result@.inserted_ids.map_values(|id: Seq<u8>| hex_of(id)));
        MutationResponse { success: true, affected: result.affected, inserted_ids: ids }
    }
}

/// What a server is in replication, as clients read it.
pub open spec fn role_name(role: ReplicationRole) -> Seq<char> {
    match role {
        ReplicationRole::Primary => "primary"@,
        ReplicationRole::Replica { .. } => "replica"@,
        ReplicationRole::Standalone => "standalone"@,
    }
}

/// Whom a server follows.
pub open spec fn role_primary(role: ReplicationRole) -> Option<Seq<char>> {
    match role {
        ReplicationRole::Replica { primary_addr } => Some(primary_addr@),
        _ => None,
    }
}

impl ReplicationStatusResponse {
    /// How replication stands, as clients read it.
    pub fn from_status(status: &ReplicationStatus) -> (r: ReplicationStatusResponse)
        ensures
            r.success,
            r.data.role@ == role_name(status.role),
            r.data.primary_addr.deep_view() == role_primary(status.role),
            r.data.current_lsn == status.current_lsn,
            r.data.lag_entries == status.lag_entries,
            r.data.lag_ms == status.lag_ms,
    {
        let (role, primary_addr) = match &status.role {
            ReplicationRole::Primary => ("primary".to_owned(), None),
            ReplicationRole::Replica { primary_addr } => (
                "replica".to_owned(),
                Some(primary_addr.clone()),
            ),
            ReplicationRole::Standalone => ("standalone".to_owned(), None),
        };
        ReplicationStatusResponse {
            success: true,
            data: ReplicationStatusJson {
                role,
                primary_addr,
                current_lsn: status.current_lsn,
                lag_entries: status.lag_entries,
                lag_ms: status.lag_ms,
            },
        }
    }
}

} // verus!
