use vstd::prelude::*;
use crate::value::{VVal, VDoc, Value, Document, doc_insert};

verus! {

// Retrieval from outside stores (vector, graph): the requests, the adapters'
// errors, what each adapter scopes a query to, and how the two results are
// combined. Ranking signals are floating point and are attached outside.

/// Why an adapter failed.
#[derive(Debug, Clone, Copy, PartialEq, Eq, Structural)]
pub enum AdapterErrorKind {
    Timeout,
    Unavailable,
    Unauthorized,
    InvalidRequest,
    NotConfigured,
}

/// An adapter's failure.
#[derive(Debug)]
pub struct AdapterError {
    pub kind: AdapterErrorKind,
    pub reason: String,
}

impl AdapterError {
    pub fn unavailable(reason: &str) -> (r: AdapterError)
        ensures
            r.kind == AdapterErrorKind::Unavailable,
            r.reason@ == reason@,
    {
        AdapterError { kind: AdapterErrorKind::Unavailable, reason: String::from_str(reason) }
    }

    pub fn not_configured(reason: &str) -> (r: AdapterError)
        ensures
            r.kind == AdapterErrorKind::NotConfigured,
            r.reason@ == reason@,
    {
        AdapterError { kind: AdapterErrorKind::NotConfigured, reason: String::from_str(reason) }
    }
}

/// Where a candidate came from.
#[derive(Debug, Clone, Copy, PartialEq, Eq, Structural)]
pub enum RetrievalSource {
    Vector,
    Graph,
}

/// How a retrieval went.
#[derive(Debug, Clone, Copy, PartialEq, Eq, Structural)]
pub enum RetrievalStatus {
    Healthy,
    Degraded,
}

/// A retrieval request: scope, query text and limits.
pub struct RetrievalCapabilityRequest {
    pub tenant_id: String,
    pub namespace: String,
    pub query: String,
    pub limit: usize,
    pub vector_limit: usize,
    pub graph_limit: usize,
}

impl RetrievalCapabilityRequest {
    /// A request for at most 10 results, asking each store for 20.
    pub fn new(tenant_id: &str, namespace: &str, query: &str) -> (r: Self)
        ensures
            r.tenant_id@ == tenant_id@,
            r.namespace@ == namespace@,
            r.query@ == query@,
            r.limit == 10,
            r.vector_limit == 20,
            r.graph_limit == 20,
    {
        RetrievalCapabilityRequest {
            tenant_id: String::from_str(tenant_id),
            namespace: String::from_str(namespace),
            query: String::from_str(query),
            limit: 10,
            vector_limit: 20,
            graph_limit: 20,
        }
    }

    pub fn with_limit(self, limit: usize) -> (r: Self)
        ensures
            r.limit == limit,
            r.tenant_id == self.tenant_id,
            r.namespace == self.namespace,
            r.query == self.query,
            r.vector_limit == self.vector_limit,
            r.graph_limit == self.graph_limit,
    {
        let mut s = self;
        s.limit = limit;
        s
    }
}

/// A candidate as an adapter finds it, before ranking signals and a
/// timestamp are attached.
pub struct CandidateDraft {
    pub candidate_id: String,
    pub tenant_id: String,
    pub namespace: String,
    pub source: RetrievalSource,
    pub lineage: String,
    pub payload: Document,
}

/// An adapter failure that retrieval tolerates: the other store may still
/// answer.
pub open spec fn tolerated(kind: AdapterErrorKind) -> bool {
    kind == AdapterErrorKind::Unavailable || kind == AdapterErrorKind::Timeout
}

/// The items of an adapter's answer, none when it failed.
pub open spec fn items_of<C>(r: Result<Vec<C>, AdapterError>) -> Seq<C> {
    match r {
        Ok(v) => v@,
        Err(_) => Seq::empty(),
    }
}

/// A failure that retrieval passes on.
pub open spec fn fatal<C>(r: Result<Vec<C>, AdapterError>) -> bool {
    r is Err && !tolerated(r->Err_0.kind)
}

/// Combines what the vector store and the graph store answered: a failure
/// other than unavailability or a timeout is passed on (the vector store's
/// first); otherwise the candidates of both, vector first; and when there are
/// none, the error `Unavailable` with reason `adapter_unavailable`.
pub fn combine_retrieval<C>(
    vector: Result<Vec<C>, AdapterError>,
    graph: Result<Vec<C>, AdapterError>,
) -> (r: Result<Vec<C>, AdapterError>)
    ensures
        fatal(vector) ==> r == Err::<Vec<C>, AdapterError>(vector->Err_0),
        !fatal(vector) && fatal(graph) ==> r == Err::<Vec<C>, AdapterError>(graph->Err_0),
        !fatal(vector) && !fatal(graph) && items_of(vector).len() + items_of(graph).len() == 0 ==> {
            &&& r matches Err(e)
            &&& e.kind == AdapterErrorKind::Unavailable
            &&& e.reason@ == "adapter_unavailable"@
        },
        !fatal(vector) && !fatal(graph) && items_of(vector).len() + items_of(graph).len() > 0 ==> {
            &&& r matches Ok(v)
            &&& v@ == items_of(vector) + items_of(graph)
        },
{
    let ghost iv = items_of(vector);
    let ghost ig = items_of(graph);
    let mut candidates: Vec<C> = Vec::new();
    match vector {
        Ok(items) => {
            let mut items = items;
            candidates.append(&mut items);
        },
        Err(err) => {
            if !(err.kind == AdapterErrorKind::Unavailable || err.kind == AdapterErrorKind::Timeout) {
                return Err(err);
            }
        },
    }
    assert(candidates@ =~= iv);
    match graph {
        Ok(items) => {
            let mut items = items;
            candidates.append(&mut items);
        },
        Err(err) => {
            if !(err.kind == AdapterErrorKind::Unavailable || err.kind == AdapterErrorKind::Timeout) {
                return Err(err);
            }
        },
    }
    assert(candidates@ =~= iv + ig);
    if candidates.len() == 0 {
        return Err(AdapterError::unavailable("adapter_unavailable"));
    }
    Ok(candidates)
}

/// The scope filter every outside query carries: the tenant, then the
/// namespace.
pub open spec fn scope_filter(tenant_id: Seq<char>, namespace: Seq<char>) -> VDoc {
    doc_insert(
        doc_insert(Seq::empty(), "tenant_id"@, VVal::Str(tenant_id)),
        "namespace"@,
        VVal::Str(namespace),
    )
}

/// The fallback adapter: no store behind it.
#[derive(Debug, Clone, Copy)]
pub struct AdapterCapabilities;

impl AdapterCapabilities {
    /// What the fallback answers a vector query.
    pub fn vector_error(&self) -> (r: AdapterError)
        ensures
            r.kind == AdapterErrorKind::Unavailable,
            r.reason@ == "vector_adapter_unavailable"@,
    {
        AdapterError::unavailable("vector_adapter_unavailable")
    }

    /// What the fallback answers a graph query.
    pub fn graph_error(&self) -> (r: AdapterError)
        ensures
            r.kind == AdapterErrorKind::Unavailable,
            r.reason@ == "graph_adapter_unavailable"@,
    {
        AdapterError::unavailable("graph_adapter_unavailable")
    }

    pub fn vector_adapter_name(&self) -> (r: &'static str)
        ensures
            r@ == "fallback_vector"@,
    {
        "fallback_vector"
    }

    pub fn graph_adapter_name(&self) -> (r: &'static str)
        ensures
            r@ == "fallback_graph"@,
    {
        "fallback_graph"
    }
}

/// The draft an adapter answers with: one candidate in the request's scope,
/// whose payload carries its identity and the query text.
pub open spec fn draft_ok(d: CandidateDraft, request: RetrievalCapabilityRequest, id: Seq<char>, source: RetrievalSource) -> bool {
    &&& d.candidate_id@ == id
    &&& d.tenant_id@ == request.tenant_id@
    &&& d.namespace@ == request.namespace@
    &&& d.source == source
    &&& d.lineage@ == "mock-lineage"@
    &&& d.payload@ == doc_insert(
        doc_insert(Seq::empty(), "candidate_id"@, VVal::Str(id)),
        "text"@,
        VVal::Str(request.query@),
    )
}

fn make_draft(request: &RetrievalCapabilityRequest, id: &str, source: RetrievalSource) -> (d: CandidateDraft)
    ensures
        draft_ok(d, *request, id@, source),
{
    let mut payload = Document::new();
    payload.insert_lit("candidate_id", Value::Str(String::from_str(id)));
    payload.insert_lit("text", Value::Str(request.query.clone()));
    CandidateDraft {
        candidate_id: String::from_str(id),
        tenant_id: request.tenant_id.clone(),
        namespace: request.namespace.clone(),
        source,
        lineage: String::from_str("mock-lineage"),
        payload,
    }
}

/// The reference vector store adapter.
pub struct QdrantAdapter {
    pub available: bool,
}

impl QdrantAdapter {
    /// Tenant and namespace predicates are on every query to the store.
    pub fn filter_scope(request: &RetrievalCapabilityRequest) -> (r: Document)
        ensures
            r@ == scope_filter(request.tenant_id@, request.namespace@),
    {
        let mut d = Document::new();
        d.insert_lit("tenant_id", Value::Str(request.tenant_id.clone()));
        d.insert_lit("namespace", Value::Str(request.namespace.clone()));
        d
    }

    pub fn health_check(&self) -> (r: Result<(), AdapterError>)
        ensures
            self.available <==> r is Ok,
            r matches Err(e) ==> e.kind == AdapterErrorKind::Unavailable && e.reason@ == "qdrant_not_available"@,
    {
        if !self.available {
            return Err(AdapterError::unavailable("qdrant_not_available"));
        }
        Ok(())
    }

    pub fn adapter_name(&self) -> (r: &'static str)
        ensures
            r@ == "qdrant"@,
    {
        "qdrant"
    }

    /// A vector query: refused when the store is unavailable, else one
    /// candidate in the request's scope.
    pub fn query_vector_drafts(&self, request: &RetrievalCapabilityRequest) -> (r: Result<Vec<CandidateDraft>, AdapterError>)
        ensures
            !self.available ==> (r matches Err(e) && e.kind == AdapterErrorKind::Unavailable
                && e.reason@ == "qdrant_adapter_unavailable"@),
            self.available ==> (r matches Ok(v) && v@.len() == 1
                && draft_ok(v@[0], *request, "vector:mock-1"@, RetrievalSource::Vector)),
    {
        if !self.available {
            return Err(AdapterError::unavailable("qdrant_adapter_unavailable"));
        }
        let _scope = Self::filter_scope(request);
        let mut v: Vec<CandidateDraft> = Vec::new();
        v.push(make_draft(request, "vector:mock-1", RetrievalSource::Vector));
        Ok(v)
    }
}

/// The reference graph store adapter.
pub struct Neo4jAdapter {
    pub available: bool,
}

impl Neo4jAdapter {
    /// The query the graph store runs: every value it depends on is a
    /// parameter.
    pub fn parameterized_cypher() -> (r: &'static str)
        ensures
            r@ == "MATCH (m:Memory {tenant_id: $tenant_id, namespace: $namespace}) WHERE m.text CONTAINS $query RETURN m.id AS candidate_id, m.text AS text LIMIT $limit"@,
    {
        "MATCH (m:Memory {tenant_id: $tenant_id, namespace: $namespace}) WHERE m.text CONTAINS $query RETURN m.id AS candidate_id, m.text AS text LIMIT $limit"
    }

    pub fn health_check(&self) -> (r: Result<(), AdapterError>)
        ensures
            self.available <==> r is Ok,
            r matches Err(e) ==> e.kind == AdapterErrorKind::Unavailable && e.reason@ == "neo4j_not_available"@,
    {
        if !self.available {
            return Err(AdapterError::unavailable("neo4j_not_available"));
        }
        Ok(())
    }

    pub fn adapter_name(&self) -> (r: &'static str)
        ensures
            r@ == "neo4j"@,
    {
        "neo4j"
    }

    /// A graph query: refused when the store is unavailable, else one
    /// candidate in the request's scope.
    pub fn query_graph_drafts(&self, request: &RetrievalCapabilityRequest) -> (r: Result<Vec<CandidateDraft>, AdapterError>)
        ensures
            !self.available ==> (r matches Err(e) && e.kind == AdapterErrorKind::Unavailable
                && e.reason@ == "neo4j_adapter_unavailable"@),
            self.available ==> (r matches Ok(v) && v@.len() == 1
                && draft_ok(v@[0], *request, "graph:mock-1"@, RetrievalSource::Graph)),
    {
        if !self.available {
            return Err(AdapterError::unavailable("neo4j_adapter_unavailable"));
        }
        let _cypher = Self::parameterized_cypher();
        let mut v: Vec<CandidateDraft> = Vec::new();
        v.push(make_draft(request, "graph:mock-1", RetrievalSource::Graph));
        Ok(v)
    }
}

} // verus!
