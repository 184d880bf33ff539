//! The graph payload the visualization endpoint serves: one node per unique
//! id (`http_type + name`), the ROOT first, and every Lead edge of the crawl.

use vstd::prelude::*;

use crate::store::{node_id, GraphStore, JobStatus, LeadEdge, UrlNode};
use crate::text::str_eq;

verus! {

/// One node of the payload. `id` is `http_type + name`; `node_type` is
/// `ROOT` or `URL`.
pub struct GraphNode {
    pub id: String,
    pub label: String,
    pub domain: String,
    pub depth: i64,
    pub status: String,
    pub node_type: String,
}

/// One Lead edge, by node ids.
pub struct GraphEdge {
    pub source: String,
    pub target: String,
}

/// The whole payload.
pub struct GraphData {
    pub nodes: Vec<GraphNode>,
    pub edges: Vec<GraphEdge>,
}

/// The status word a URL node shows.
pub open spec fn status_view(st: JobStatus) -> Seq<char> {
    match st {
        JobStatus::Pending => "PENDING"@,
        JobStatus::InProgress => "IN-PROGRESS"@,
        JobStatus::Completed => "COMPLETED"@,
        JobStatus::Failed => "FAILED"@,
        JobStatus::Cancelled => "CANCELLED"@,
    }
}

/// The status word of a job state.
pub fn status_text_of(st: &JobStatus) -> (r: String)
    ensures
        r@ == status_view(*st),
{
    match st {
        JobStatus::Pending => String::from_str("PENDING"),
        JobStatus::InProgress => String::from_str("IN-PROGRESS"),
        JobStatus::Completed => String::from_str("COMPLETED"),
        JobStatus::Failed => String::from_str("FAILED"),
        JobStatus::Cancelled => String::from_str("CANCELLED"),
    }
}

/// The payload node a URL node yields.
pub open spec fn node_from_url(g: GraphNode, u: UrlNode) -> bool {
    &&& g.id@ == node_id(u.http_type@, u.name@)
    &&& g.label@ == u.name@
    &&& g.domain@ == u.domain@
    &&& g.depth == u.current_depth
    &&& g.status@ == status_view(u.job_status)
    &&& g.node_type@ == "URL"@
}

/// Some node of the payload carries this id.
pub open spec fn some_node_has_id(nodes: Seq<GraphNode>, id: Seq<char>) -> bool {
    exists|a: int| 0 <= a < nodes.len() && (#[trigger] nodes[a]).id@ == id
}

/// The node shows one of the crawl's URLs.
pub open spec fn node_shows_crawl_url(g: GraphNode, urls: Seq<UrlNode>, cid: Seq<char>) -> bool {
    exists|j: int|
        0 <= j < urls.len() && (#[trigger] urls[j]).crawl_id@ == cid && node_from_url(g, urls[j])
}

/// The Lead edges of the crawl, in store order.
pub open spec fn crawl_leads(leads: Seq<LeadEdge>, cid: Seq<char>) -> Seq<LeadEdge>
    decreases leads.len(),
{
    if leads.len() == 0 {
        Seq::empty()
    } else {
        crawl_leads(leads.drop_last(), cid) + if leads.last().crawl_id@ == cid {
            seq![leads.last()]
        } else {
            Seq::empty()
        }
    }
}

/// The graph payload of one crawl, or `None` when no such crawl exists:
/// nodes unique by id, the ROOT's node first, one node for every URL of the
/// crawl (the first URL with an id wins when the crawl reached one host over
/// two depths), and one edge per Lead edge of the crawl, in order.
pub fn get_graph_data(store: &GraphStore, crawl_id: &str) -> (r: Option<GraphData>)
    requires
        store.wf(),
    ensures
        r is None ==> !store.has_root(crawl_id@),
        r is Some ==> ({
            let g = r->0;
            &&& store.has_root(crawl_id@)
            // ids are unique
            &&& forall|a: int, b: int|
                0 <= a < b < g.nodes@.len() ==> (#[trigger] g.nodes@[a]).id@ != (
                #[trigger] g.nodes@[b]).id@
            // the ROOT's node comes first
            &&& g.nodes@.len() >= 1
            &&& exists|ri: int|
                0 <= ri < store.roots@.len() && (#[trigger] store.roots@[ri]).crawl_id@ == crawl_id@
                    && g.nodes@[0].id@ == node_id(
                    store.roots@[ri].http_type@,
                    store.roots@[ri].name@,
                ) && g.nodes@[0].label@ == store.roots@[ri].name@ && g.nodes@[0].domain@
                    == store.roots@[ri].domain@ && g.nodes@[0].depth == 0 && g.nodes@[0].status@
                    == "root"@ && g.nodes@[0].node_type@ == "ROOT"@
            // every URL of the crawl is represented by id
            &&& forall|i: int|
                0 <= i < store.urls@.len() && (#[trigger] store.urls@[i]).crawl_id@
                    == crawl_id@ ==> some_node_has_id(
                    g.nodes@,
                    node_id(store.urls@[i].http_type@, store.urls@[i].name@),
                )
            // and every node beyond the first shows some URL of the crawl
            &&& forall|a: int|
                1 <= a < g.nodes@.len() ==> node_shows_crawl_url(
                    #[trigger] g.nodes@[a],
                    store.urls@,
                    crawl_id@,
                )
            // the edges are the crawl's Lead edges, in order
            &&& g.edges@.len() == crawl_leads(store.leads@, crawl_id@).len()
            &&& forall|e: int|
                0 <= e < g.edges@.len() ==> (#[trigger] g.edges@[e]).source@ == crawl_leads(
                    store.leads@,
                    crawl_id@,
                )[e].source@ && g.edges@[e].target@ == crawl_leads(store.leads@, crawl_id@)[e].target@
        }),
{
    let ri = match store.find_root_index(crawl_id) {
        None => {
            return None;
        },
        Some(ri) => ri,
    };
    let root = &store.roots[ri];
    let mut nodes: Vec<GraphNode> = Vec::new();
    nodes.push(
        GraphNode {
            id: root.http_type.clone().concat(root.name.as_str()),
            label: root.name.clone(),
            domain: root.domain.clone(),
            depth: 0,
            status: String::from_str("root"),
            node_type: String::from_str("ROOT"),
        },
    );
    let ghost rootn = nodes@[0];
    proof {
        assert(rootn.id@ == node_id(store.roots@[ri as int].http_type@, store.roots@[ri as int].name@));
    }
    let n = store.urls.len();
    let mut i: usize = 0;
    while i < n
        invariant
            i <= n,
            n == store.urls@.len(),
            nodes@.len() >= 1,
            nodes@[0] == rootn,
            forall|a: int, b: int|
                0 <= a < b < nodes@.len() ==> (#[trigger] nodes@[a]).id@ != (
                #[trigger] nodes@[b]).id@,
            forall|j: int|
                0 <= j < i && (#[trigger] store.urls@[j]).crawl_id@ == crawl_id@
                    ==> some_node_has_id(
                    nodes@,
                    node_id(store.urls@[j].http_type@, store.urls@[j].name@),
                ),
            forall|a: int|
                1 <= a < nodes@.len() ==> node_shows_crawl_url(
                    #[trigger] nodes@[a],
                    store.urls@,
                    crawl_id@,
                ),
        decreases n - i,
    {
        let ghost nodes0 = nodes@;
        let node = &store.urls[i];
        let in_crawl = str_eq(node.crawl_id.as_str(), crawl_id);
        if in_crawl {
            let id = node.http_type.clone().concat(node.name.as_str());
            let mut present = false;
            let mut a: usize = 0;
            let m = nodes.len();
            while a < m
                invariant
                    a <= m,
                    m == nodes@.len(),
                    nodes@ == nodes0,
                    present == exists|b: int| 0 <= b < a && (#[trigger] nodes@[b]).id@ == id@,
                decreases m - a,
            {
                if !present && nodes[a].id == id {
                    present = true;
                }
                a += 1;
            }
            if !present {
                nodes.push(
                    GraphNode {
                        id,
                        label: node.name.clone(),
                        domain: node.domain.clone(),
                        depth: node.current_depth,
                        status: status_text_of(&node.job_status),
                        node_type: String::from_str("URL"),
                    },
                );
                proof {
                    assert(nodes@ == nodes0.push(nodes@.last()));
                    assert(node_from_url(nodes@.last(), store.urls@[i as int]));
                    assert forall|a2: int, b2: int|
                        0 <= a2 < b2 < nodes@.len() implies (#[trigger] nodes@[a2]).id@ != (
                    #[trigger] nodes@[b2]).id@ by {
                        if b2 < nodes0.len() {
                            assert(nodes@[a2] == nodes0[a2] && nodes@[b2] == nodes0[b2]);
                        } else {
                            assert(nodes@[a2] == nodes0[a2]);
                            assert(nodes@[b2] == nodes@.last());
                        }
                    }
                    assert forall|a2: int|
                        1 <= a2 < nodes@.len() implies node_shows_crawl_url(
                        #[trigger] nodes@[a2],
                        store.urls@,
                        crawl_id@,
                    ) by {
                        if a2 < nodes0.len() {
                            assert(nodes@[a2] == nodes0[a2]);
                            assert(node_shows_crawl_url(nodes0[a2], store.urls@, crawl_id@));
                        } else {
                            assert(node_from_url(nodes@[a2], store.urls@[i as int]));
                        }
                    }
                }
            }
        }
        proof {
            assert forall|j: int|
                0 <= j < i + 1 && (#[trigger] store.urls@[j]).crawl_id@
                    == crawl_id@ implies some_node_has_id(
                nodes@,
                node_id(store.urls@[j].http_type@, store.urls@[j].name@),
            ) by {
                if j < i {
                    let a0 = choose|a0: int|
                        0 <= a0 < nodes0.len() && (#[trigger] nodes0[a0]).id@ == node_id(
                            store.urls@[j].http_type@,
                            store.urls@[j].name@,
                        );
                    assert(nodes@[a0] == nodes0[a0]);
                    assert(nodes@[a0].id@ == node_id(
                        store.urls@[j].http_type@,
                        store.urls@[j].name@,
                    ));
                } else {
                    let u = store.urls@[i as int];
                    if some_node_has_id(nodes0, node_id(u.http_type@, u.name@)) {
                        let b0 = choose|b0: int|
                            0 <= b0 < nodes0.len() && (#[trigger] nodes0[b0]).id@ == node_id(
                                u.http_type@,
                                u.name@,
                            );
                        assert(nodes@[b0] == nodes0[b0]);
                        assert(nodes@[b0].id@ == node_id(u.http_type@, u.name@));
                    } else {
                        assert(nodes@.last().id@ == node_id(u.http_type@, u.name@));
                        assert(nodes@[nodes@.len() - 1].id@ == node_id(u.http_type@, u.name@));
                    }
                }
            }
        }
        i += 1;
    }
    let nl = store.leads.len();
    let mut edges: Vec<GraphEdge> = Vec::new();
    let mut e: usize = 0;
    while e < nl
        invariant
            e <= nl,
            nl == store.leads@.len(),
            edges@.len() == crawl_leads(store.leads@.take(e as int), crawl_id@).len(),
            forall|k: int|
                0 <= k < edges@.len() ==> (#[trigger] edges@[k]).source@ == crawl_leads(
                    store.leads@.take(e as int),
                    crawl_id@,
                )[k].source@ && edges@[k].target@ == crawl_leads(
                    store.leads@.take(e as int),
                    crawl_id@,
                )[k].target@,
            forall|k: int|
                0 <= k < crawl_leads(store.leads@.take(e as int), crawl_id@).len()
                    ==> #[trigger] crawl_leads(store.leads@.take(e as int), crawl_id@)[k]
                    == crawl_leads(store.leads@, crawl_id@)[k],
        decreases nl - e,
    {
        proof {
            assert(store.leads@.take(e + 1 as int).drop_last() =~= store.leads@.take(e as int));
            assert(store.leads@.take(e + 1 as int).last() == store.leads@[e as int]);
            lemma_crawl_leads_prefix(store.leads@, crawl_id@, e + 1);
        }
        let lead = &store.leads[e];
        if str_eq(lead.crawl_id.as_str(), crawl_id) {
            edges.push(GraphEdge { source: lead.source.clone(), target: lead.target.clone() });
        }
        e += 1;
    }
    proof {
        assert(store.leads@.take(nl as int) =~= store.leads@);
    }
    let result = Some(GraphData { nodes, edges });
    result
}

/// The crawl's edges of a prefix are a prefix of the crawl's edges.
proof fn lemma_crawl_leads_prefix(leads: Seq<LeadEdge>, cid: Seq<char>, e: int)
    requires
        0 <= e <= leads.len(),
    ensures
        crawl_leads(leads.take(e), cid).len() <= crawl_leads(leads, cid).len(),
        forall|k: int|
            0 <= k < crawl_leads(leads.take(e), cid).len() ==> #[trigger] crawl_leads(
                leads.take(e),
                cid,
            )[k] == crawl_leads(leads, cid)[k],
    decreases leads.len() - e,
{
    if e < leads.len() {
        lemma_crawl_leads_prefix(leads, cid, e + 1);
        assert(leads.take(e + 1).drop_last() =~= leads.take(e));
        assert(leads.take(e + 1).last() == leads[e]);
        let ce = crawl_leads(leads.take(e), cid);
        let ce1 = crawl_leads(leads.take(e + 1), cid);
        assert(ce1 == ce + (if leads[e].crawl_id@ == cid {
            seq![leads[e]]
        } else {
            Seq::<LeadEdge>::empty()
        }));
        assert forall|k: int| 0 <= k < ce.len() implies #[trigger] ce[k] == crawl_leads(
            leads,
            cid,
        )[k] by {
            assert(ce1[k] == ce[k]);
            assert(ce1[k] == crawl_leads(leads, cid)[k]);
        }
    } else {
        assert(leads.take(e) =~= leads);
        assert forall|k: int|
            0 <= k < crawl_leads(leads.take(e), cid).len() implies #[trigger] crawl_leads(
                leads.take(e),
                cid,
            )[k] == crawl_leads(leads, cid)[k] by {
            assert(leads.take(e) == leads);
        }
    }
}

} // verus!
