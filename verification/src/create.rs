//! The add-element form: the branch it lands on and the values it carries.

use vstd::prelude::*;
use crate::form::{branch_field, branch_of, field, field_or_empty, FormFields};
use crate::edit::{attributes_texts, Element};
use crate::editing::first_with_id;
use crate::scope::{Graph, GraphNode};
use crate::sections::Requirement;
use crate::text::{chars_equal, chars_of, texts, trim_text, trimmed};

verus! {

/// The query parameters of the add-element form: the branch the element lands on, defaulting
/// to main exactly as the model page resolves it.
pub struct ElementQuery {
    pub branch: Option<String>,
}

/// The values the add-element form carries. The author is the verified identity, never a
/// browser field; the branch travels as a hidden field from the URL the form was loaded from.
pub struct ElementInput {
    pub kind: String,
    pub id: String,
    pub name: String,
    pub req_id: String,
    pub text: String,
    pub branch: String,
    pub message: String,
}

impl ElementInput {
    /// Read the add-element form: each field or the empty string, the branch or the default.
    pub fn from_form(form: &FormFields) -> (r: ElementInput)
        ensures
            r.kind@ == field_or_empty(form@, "kind"@),
            r.id@ == field_or_empty(form@, "id"@),
            r.name@ == field_or_empty(form@, "name"@),
            r.req_id@ == field_or_empty(form@, "req_id"@),
            r.text@ == field_or_empty(form@, "text"@),
            r.branch@ == branch_of(form@),
            r.message@ == field_or_empty(form@, "message"@),
    {
        ElementInput {
            kind: field(form, "kind"),
            id: field(form, "id"),
            name: field(form, "name"),
            req_id: field(form, "req_id"),
            text: field(form, "text"),
            branch: branch_field(form),
            message: field(form, "message"),
        }
    }
}

/// What the add-element form is refused for once its names have passed the name rule: a
/// blank message, a kind other than block or requirement, or a requirement without a reqId.
pub open spec fn element_form_problem(input: ElementInput) -> Option<Seq<char>> {
    if trimmed(input.message@).len() == 0 {
        Some("commit message must not be empty"@)
    } else if input.kind@ != "block"@ && input.kind@ != "requirement"@ {
        Some("kind must be block or requirement"@)
    } else if input.kind@ == "requirement"@ && trimmed(input.req_id@).len() == 0 {
        Some("a requirement needs a reqId"@)
    } else {
        None
    }
}

/// What the add-element form is refused for, in the order the form is checked, or nothing.
pub fn element_form_error(input: &ElementInput) -> (r: Option<String>)
    ensures
        match r {
            Some(m) => element_form_problem(*input) == Some(m@),
            None => element_form_problem(*input) is None,
        },
{
    if trim_text(input.message.as_str()).as_str().is_empty() {
        return Some(String::from_str("commit message must not be empty"));
    }
    let kind = chars_of(input.kind.as_str());
    let is_block = chars_equal(&kind, "block");
    let is_requirement = chars_equal(&kind, "requirement");
    if !is_block && !is_requirement {
        return Some(String::from_str("kind must be block or requirement"));
    }
    if is_requirement && trim_text(input.req_id.as_str()).as_str().is_empty() {
        return Some(String::from_str("a requirement needs a reqId"));
    }
    None
}

/// Where a new model starts from.
pub enum ModelSource {
    /// An empty model named after the project.
    Empty,
    /// A pasted document, still to be read as a model.
    Paste(String),
}

/// Where the create-model form asks a new model to start from, or why it is refused: an
/// empty model, a pasted document when one was pasted, and otherwise the form's own words.
pub open spec fn model_source_of(fields: Seq<(Seq<char>, Seq<char>)>) -> Result<Option<Seq<char>>, Seq<char>> {
    if field_or_empty(fields, "mode"@) == "empty"@ {
        Ok(None)
    } else if field_or_empty(fields, "mode"@) == "paste"@ {
        if trimmed(field_or_empty(fields, "okf"@)).len() == 0 {
            Err("paste an OKF document"@)
        } else {
            Ok(Some(field_or_empty(fields, "okf"@)))
        }
    } else {
        Err("choose to start from empty or paste a document"@)
    }
}

/// Where the create-model form asks a new model to start from, or why it is refused.
pub fn model_source(form: &FormFields) -> (r: Result<ModelSource, String>)
    ensures
        match r {
            Ok(ModelSource::Empty) => model_source_of(form@) == Ok::<Option<Seq<char>>, Seq<char>>(None),
            Ok(ModelSource::Paste(text)) => model_source_of(form@) == Ok::<Option<Seq<char>>, Seq<char>>(Some(text@)),
            Err(m) => model_source_of(form@) == Err::<Option<Seq<char>>, Seq<char>>(m@),
        },
{
    let mode = chars_of(field(form, "mode").as_str());
    if chars_equal(&mode, "empty") {
        Ok(ModelSource::Empty)
    } else if chars_equal(&mode, "paste") {
        let text = field(form, "okf");
        if trim_text(text.as_str()).as_str().is_empty() {
            Err(String::from_str("paste an OKF document"))
        } else {
            Ok(ModelSource::Paste(text))
        }
    } else {
        Err(String::from_str("choose to start from empty or paste a document"))
    }
}

/// The parts of a model a new element touches: the structure and requirement lists, the
/// graph, and the counts the model's summary keeps of blocks, requirements and graph nodes.
pub struct ModelDocument {
    pub project: String,
    pub structure: Vec<Element>,
    pub requirements: Vec<Requirement>,
    pub graph: Option<Graph>,
    pub blocks: u64,
    pub requirement_count: u64,
    pub graph_nodes: u64,
}

/// An element read as texts: id, name, documentation, stereotypes and attribute rows.
pub open spec fn element_texts(e: Element) -> (Seq<char>, Seq<char>, Seq<char>, Seq<Seq<char>>, Seq<(Seq<char>, Seq<char>, Seq<char>, Seq<char>)>) {
    (e.id@, e.name@, e.documentation@, texts(e.stereotypes@), attributes_texts(e.attributes@))
}

/// A requirement read as texts: id, reqId, name and text.
pub open spec fn requirement_texts(r: Requirement) -> (Seq<char>, Seq<char>, Seq<char>, Seq<char>) {
    (r.id@, r.req_id@, r.name@, r.req_text@)
}

/// A list that gained one item at its end and kept the rest.
pub open spec fn grew_by<T>(before: Seq<T>, after: Seq<T>) -> bool {
    after.len() == before.len() + 1 && after.drop_last() == before
}

/// The graph after a new element of `kind` is added: a model with a graph gains a node for it
/// at the end and keeps its relationships; a model without one stays without.
pub open spec fn graph_gains(before: Option<Graph>, after: Option<Graph>, id: Seq<char>, name: Seq<char>, kind: Seq<char>) -> bool {
    match before {
        None => after is None,
        Some(g) => match after {
            None => false,
            Some(h) => {
                &&& h.edges@ == g.edges@
                &&& grew_by(g.nodes@, h.nodes@)
                &&& h.nodes@.last().id@ == id
                &&& h.nodes@.last().name@ == name
                &&& h.nodes@.last().kind@ == kind
            },
        },
    }
}

/// The count of graph nodes after a new element: one more when the model has a graph.
pub open spec fn nodes_after(before: Option<Graph>, count: u64) -> int {
    if before is Some { count + 1 } else { count as int }
}

/// Add a node for a new element to the graph, when the model has one.
fn add_node(graph: Option<Graph>, id: &String, name: &String, kind: &str) -> (r: Option<Graph>)
    ensures
        graph_gains(graph, r, id@, name@, kind@),
{
    match graph {
        Some(g) => {
            let mut nodes = g.nodes;
            let ghost before = nodes@;
            nodes.push(GraphNode { id: id.clone(), name: name.clone(), kind: String::from_str(kind) });
            proof {
                assert(nodes@.drop_last() =~= before);
            }
            Some(Graph { nodes, edges: g.edges })
        },
        None => None,
    }
}

/// The model with the submitted element added, its summary counts kept in step. A block lands
/// in the structure list and a requirement in the requirement list with its reqId and text,
/// each with a matching graph node when the model has a graph; any other kind changes nothing.
pub fn add_element(root: ModelDocument, input: &ElementInput) -> (r: ModelDocument)
    requires
        root.blocks < u64::MAX,
        root.requirement_count < u64::MAX,
        root.graph_nodes < u64::MAX,
    ensures
        input.kind@ == "block"@ ==> {
            &&& grew_by(root.structure@, r.structure@)
            &&& element_texts(r.structure@.last()) == (input.id@, input.name@, Seq::<char>::empty(), Seq::<Seq<char>>::empty(), Seq::<(Seq<char>, Seq<char>, Seq<char>, Seq<char>)>::empty())
            &&& r.requirements@ == root.requirements@
            &&& r.project == root.project
            &&& r.blocks == root.blocks + 1
            &&& r.requirement_count == root.requirement_count
            &&& graph_gains(root.graph, r.graph, input.id@, input.name@, "block"@)
            &&& r.graph_nodes == nodes_after(root.graph, root.graph_nodes)
        },
        input.kind@ == "requirement"@ ==> {
            &&& grew_by(root.requirements@, r.requirements@)
            &&& requirement_texts(r.requirements@.last()) == (input.id@, input.req_id@, input.name@, input.text@)
            &&& r.structure@ == root.structure@
            &&& r.project == root.project
            &&& r.blocks == root.blocks
            &&& r.requirement_count == root.requirement_count + 1
            &&& graph_gains(root.graph, r.graph, input.id@, input.name@, "requirement"@)
            &&& r.graph_nodes == nodes_after(root.graph, root.graph_nodes)
        },
        input.kind@ != "block"@ && input.kind@ != "requirement"@ ==> r == root,
{
    let kind = chars_of(input.kind.as_str());
    proof {
        reveal_strlit("block");
        reveal_strlit("requirement");
    }
    if chars_equal(&kind, "block") {
        assert("block"@.len() != "requirement"@.len());
        let mut structure = root.structure;
        let ghost before = structure@;
        structure.push(Element {
            id: input.id.clone(),
            name: input.name.clone(),
            documentation: String::new(),
            stereotypes: Vec::new(),
            attributes: Vec::new(),
        });
        proof {
            assert(structure@.drop_last() =~= before);
            assert(texts(structure@.last().stereotypes@) =~= Seq::<Seq<char>>::empty());
            assert(attributes_texts(structure@.last().attributes@) =~= Seq::<(Seq<char>, Seq<char>, Seq<char>, Seq<char>)>::empty());
        }
        let has_graph = root.graph.is_some();
        let graph = add_node(root.graph, &input.id, &input.name, "block");
        ModelDocument {
            project: root.project,
            structure,
            requirements: root.requirements,
            graph,
            blocks: root.blocks + 1,
            requirement_count: root.requirement_count,
            graph_nodes: if has_graph { root.graph_nodes + 1 } else { root.graph_nodes },
        }
    } else if chars_equal(&kind, "requirement") {
        let mut requirements = root.requirements;
        let ghost before = requirements@;
        requirements.push(Requirement {
            id: input.id.clone(),
            req_id: input.req_id.clone(),
            name: input.name.clone(),
            req_text: input.text.clone(),
        });
        proof {
            assert(requirements@.drop_last() =~= before);
        }
        let has_graph = root.graph.is_some();
        let graph = add_node(root.graph, &input.id, &input.name, "requirement");
        ModelDocument {
            project: root.project,
            structure: root.structure,
            requirements,
            graph,
            blocks: root.blocks,
            requirement_count: root.requirement_count + 1,
            graph_nodes: if has_graph { root.graph_nodes + 1 } else { root.graph_nodes },
        }
    } else {
        root
    }
}


/// The model a "start from empty" first commit stores: no structure and no requirements, and
/// the one graph node (`root`, a block) that makes an empty document a valid model. The node
/// backs no element, so the page shows nothing.
pub fn empty_model(project: &str) -> (r: ModelDocument)
    ensures
        r.project@ == project@,
        r.structure@.len() == 0,
        r.requirements@.len() == 0,
        r.graph matches Some(g) && g.edges@.len() == 0 && g.nodes@.len() == 1
            && g.nodes@[0].id@ == "root"@ && g.nodes@[0].name@ == "root"@ && g.nodes@[0].kind@ == "block"@,
        r.blocks == 0,
        r.requirement_count == 0,
        r.graph_nodes == 1,
{
    let mut nodes: Vec<GraphNode> = Vec::new();
    nodes.push(GraphNode { id: String::from_str("root"), name: String::from_str("root"), kind: String::from_str("block") });
    ModelDocument {
        project: String::from_str(project),
        structure: Vec::new(),
        requirements: Vec::new(),
        graph: Some(Graph { nodes, edges: Vec::new() }),
        blocks: 0,
        requirement_count: 0,
        graph_nodes: 1,
    }
}

/// An element added at the end of a list in which no element has its id yet is the element a
/// later edit of that id finds.
pub proof fn lemma_added_element_is_found(elements: Seq<Element>, added: Element)
    requires
        first_with_id(elements, added.id@) is None,
    ensures
        first_with_id(elements.push(added), added.id@) == Some(elements.len() as int),
    decreases elements.len(),
{
    if elements.len() > 0 {
        assert(elements.push(added).drop_first() =~= elements.drop_first().push(added));
        lemma_added_element_is_found(elements.drop_first(), added);
    } else {
        assert(elements.push(added)[0] == added);
    }
}

} // verus!
