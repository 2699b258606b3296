use lspk_mod::doc::{append_element, find_child, find_or_create_child, Child, Node};
use lspk_mod::merge::{
    build_module_node, descriptor_payload, extract_mod_config, insert_module, PathStep,
    SchemaError,
};

fn elem(name: &str, attrs: &[(&str, &str)], children: Vec<Child>) -> Node {
    Node {
        name: name.to_string(),
        attributes: attrs
            .iter()
            .map(|(k, v)| (k.to_string(), v.to_string()))
            .collect(),
        children,
    }
}

fn attr_of(n: &Node, key: &str) -> Option<String> {
    n.attributes
        .iter()
        .find(|a| a.0 == key)
        .map(|a| a.1.clone())
}

fn element_children(n: &Node) -> Vec<&Node> {
    n.children
        .iter()
        .filter_map(|c| match c {
            Child::Element(e) => Some(e),
            _ => None,
        })
        .collect()
}

fn find_elem<'a>(n: &'a Node, tag: &str, key: &str, val: &str) -> Option<&'a Node> {
    element_children(n)
        .into_iter()
        .find(|e| e.name == tag && attr_of(e, key).as_deref() == Some(val))
}

/// Convert a parsed markup element into the library's document node.
fn xml_to_node(e: &xmltree::Element) -> Node {
    Node {
        name: e.name.clone(),
        attributes: e
            .attributes
            .iter()
            .map(|(k, v)| (k.clone(), v.clone()))
            .collect(),
        children: e
            .children
            .iter()
            .filter_map(|c| match c {
                xmltree::XMLNode::Element(el) => Some(Child::Element(xml_to_node(el))),
                xmltree::XMLNode::Text(t) => Some(Child::Text(t.clone())),
                xmltree::XMLNode::Comment(t) => Some(Child::Comment(t.clone())),
                xmltree::XMLNode::CData(t) => Some(Child::CData(t.clone())),
                xmltree::XMLNode::ProcessingInstruction(a, b) => {
                    Some(Child::ProcessingInstruction(a.clone(), b.clone()))
                }
            })
            .collect(),
    }
}

#[test]
fn find_or_create_is_idempotent() {
    let mut parent = elem(
        "root",
        &[],
        vec![
            Child::Text("  ".to_string()),
            Child::Element(elem("region", &[("id", "Other")], vec![])),
        ],
    );
    let tag = "region".to_string();
    let key = "id".to_string();
    let val = "ModuleSettings".to_string();
    let before = parent.children.len();
    let i1 = find_or_create_child(&mut parent, &tag, &key, &val);
    assert_eq!(parent.children.len(), before + 1);
    let i2 = find_or_create_child(&mut parent, &tag, &key, &val);
    assert_eq!(i1, i2);
    assert_eq!(parent.children.len(), before + 1);
    let matches: usize = element_children(&parent)
        .iter()
        .filter(|e| e.name == "region" && attr_of(e, "id").as_deref() == Some("ModuleSettings"))
        .count();
    assert_eq!(matches, 1);
    // The unrelated sibling is untouched and still first.
    assert!(matches!(&parent.children[0], Child::Text(t) if t == "  "));
    assert!(find_elem(&parent, "region", "id", "Other").is_some());
}

#[test]
fn find_or_create_finds_existing_without_mutation() {
    let existing = elem("region", &[("id", "ModuleSettings")], vec![
        Child::Element(elem("node", &[("id", "root")], vec![])),
    ]);
    let mut parent = elem("root", &[], vec![Child::Element(existing)]);
    let tag = "region".to_string();
    let key = "id".to_string();
    let val = "ModuleSettings".to_string();
    let i = find_or_create_child(&mut parent, &tag, &key, &val);
    assert_eq!(i, 0);
    assert_eq!(parent.children.len(), 1);
    // The found node keeps its own children.
    let region = find_elem(&parent, "region", "id", "ModuleSettings").unwrap();
    assert_eq!(element_children(region).len(), 1);
}

#[test]
fn find_child_picks_first_match() {
    let parent = elem(
        "root",
        &[],
        vec![
            Child::Element(elem("node", &[("id", "a")], vec![])),
            Child::Element(elem("node", &[("id", "b")], vec![])),
            Child::Element(elem("node", &[("id", "b"), ("extra", "1")], vec![])),
        ],
    );
    let tag = "node".to_string();
    let key = "id".to_string();
    let val = "b".to_string();
    assert_eq!(find_child(&parent, &tag, &key, &val), Some(1));
}

#[test]
fn append_element_never_deduplicates() {
    let mut parent = elem("children", &[], vec![]);
    append_element(&mut parent, elem("node", &[("id", "X")], vec![]));
    append_element(&mut parent, elem("node", &[("id", "X")], vec![]));
    assert_eq!(parent.children.len(), 2);
}

fn descriptor_doc(extra: &[(&str, &str)]) -> Node {
    let mut attrs: Vec<Child> = vec![
        Child::Element(elem(
            "attribute",
            &[("id", "Folder"), ("type", "LSString"), ("value", "F")],
            vec![],
        )),
        Child::Element(elem(
            "attribute",
            &[("id", "Name"), ("type", "LSString"), ("value", "N")],
            vec![],
        )),
        Child::Element(elem(
            "attribute",
            &[("id", "UUID"), ("type", "FixedString"), ("value", "U")],
            vec![],
        )),
        Child::Element(elem(
            "attribute",
            &[("id", "Version"), ("type", "int32"), ("value", "1")],
            vec![],
        )),
    ];
    for (id, value) in extra {
        attrs.push(Child::Element(elem(
            "attribute",
            &[("id", id), ("type", "LSString"), ("value", value)],
            vec![],
        )));
    }
    let module_info = elem("node", &[("id", "ModuleInfo")], attrs);
    let children = elem("children", &[], vec![Child::Element(module_info)]);
    let root = elem("node", &[("id", "root")], vec![Child::Element(children)]);
    let region = elem("region", &[("id", "Config")], vec![Child::Element(root)]);
    elem("save", &[], vec![Child::Element(region)])
}

#[test]
fn config_path_is_followed() {
    let doc = descriptor_doc(&[]);
    let config = extract_mod_config(doc).unwrap();
    assert_eq!(config.name, "node");
    assert_eq!(attr_of(&config, "id").as_deref(), Some("ModuleInfo"));
    assert_eq!(element_children(&config).len(), 4);
}

#[test]
fn config_path_reports_missing_step() {
    let doc = elem("save", &[], vec![]);
    assert!(matches!(
        extract_mod_config(doc),
        Err(SchemaError::PathNotFound(PathStep::ConfigRegion))
    ));
    let doc = elem("other", &[], vec![]);
    assert!(matches!(
        extract_mod_config(doc),
        Err(SchemaError::PathNotFound(PathStep::SaveRoot))
    ));
}

#[test]
fn allow_list_filters_attributes() {
    let doc = descriptor_doc(&[("Version64", "36028797018963968"), ("SomeOtherField", "zzz")]);
    let config = extract_mod_config(doc).unwrap();
    let archive = b"archive bytes".to_vec();
    let module = build_module_node(config, &archive);
    assert_eq!(module.name, "node");
    assert_eq!(attr_of(&module, "id").as_deref(), Some("ModuleShortDesc"));
    let kids = element_children(&module);
    // Five allow-listed attributes plus the digest leaf; SomeOtherField is gone.
    assert_eq!(kids.len(), 6);
    let ids: Vec<String> = kids.iter().filter_map(|e| attr_of(e, "id")).collect();
    assert_eq!(ids, vec!["Folder", "Name", "UUID", "Version", "Version64", "MD5"]);
    // The copied children keep their original attributes.
    assert_eq!(attr_of(kids[0], "value").as_deref(), Some("F"));
    assert_eq!(attr_of(kids[2], "type").as_deref(), Some("FixedString"));
    // The digest leaf carries the whole-archive digest as lowercase hex.
    let md5_node = kids[5];
    assert_eq!(attr_of(md5_node, "type").as_deref(), Some("LSString"));
    let expected = format!("{:x}", md5::compute(&archive));
    assert_eq!(attr_of(md5_node, "value").as_deref(), Some(expected.as_str()));
}

fn make_archive_one_entry(name: &str, payload: &[u8]) -> Vec<u8> {
    let mut rec = vec![0u8; 272];
    rec[..name.len()].copy_from_slice(name.as_bytes());
    rec[256..260].copy_from_slice(&20u32.to_le_bytes());
    rec[264..268].copy_from_slice(&(payload.len() as u32).to_le_bytes());
    rec[268..272].copy_from_slice(&(payload.len() as u32).to_le_bytes());
    let blob = lz4_flex::block::compress(&rec);
    let mut body: Vec<u8> = Vec::new();
    body.extend_from_slice(b"LSPK");
    body.extend_from_slice(&18u32.to_le_bytes());
    body.extend_from_slice(&(20 + payload.len() as u64).to_le_bytes());
    body.extend_from_slice(&(8 + blob.len() as u32).to_le_bytes());
    body.extend_from_slice(payload);
    body.extend_from_slice(&1u32.to_le_bytes());
    body.extend_from_slice(&(blob.len() as u32).to_le_bytes());
    body.extend_from_slice(&blob);
    body
}

#[test]
fn end_to_end_merge_scenario() {
    let descriptor_xml = r#"<save>
  <region id="Config">
    <node id="root">
      <children>
        <node id="ModuleInfo">
          <attribute id="Folder" type="LSString" value="F"/>
          <attribute id="Name" type="LSString" value="N"/>
          <attribute id="UUID" type="FixedString" value="U"/>
          <attribute id="Version" type="int32" value="1"/>
        </node>
      </children>
    </node>
  </region>
</save>"#;
    let archive = make_archive_one_entry("MyMod/meta.lsx", descriptor_xml.as_bytes());

    // Front half: locate and extract the descriptor payload.
    let payload = descriptor_payload(&archive).unwrap();
    assert_eq!(payload, descriptor_xml.as_bytes().to_vec());

    // Parse the payload as a document and pull out the module descriptor.
    let parsed = xmltree::Element::parse(payload.as_slice()).unwrap();
    let config = extract_mod_config(xml_to_node(&parsed)).unwrap();
    let module = build_module_node(config, &archive);

    // Back half: merge into a profile with no ModuleSettings region yet.
    let mut profile = elem("save", &[], vec![]);
    insert_module(&mut profile, module);

    let region = find_elem(&profile, "region", "id", "ModuleSettings").unwrap();
    let root = find_elem(region, "node", "id", "root").unwrap();
    let children = element_children(root)
        .into_iter()
        .find(|e| e.name == "children")
        .unwrap();
    let mods = find_elem(children, "node", "id", "Mods").unwrap();
    let mods_children = element_children(mods)
        .into_iter()
        .find(|e| e.name == "children")
        .unwrap();
    let descs = element_children(mods_children);
    assert_eq!(descs.len(), 1);
    let desc = descs[0];
    assert_eq!(desc.name, "node");
    assert_eq!(attr_of(desc, "id").as_deref(), Some("ModuleShortDesc"));
    assert_eq!(attr_of(find_elem(desc, "attribute", "id", "Folder").unwrap(), "value").as_deref(), Some("F"));
    assert_eq!(attr_of(find_elem(desc, "attribute", "id", "Name").unwrap(), "value").as_deref(), Some("N"));
    assert_eq!(attr_of(find_elem(desc, "attribute", "id", "UUID").unwrap(), "value").as_deref(), Some("U"));
    assert_eq!(attr_of(find_elem(desc, "attribute", "id", "Version").unwrap(), "value").as_deref(), Some("1"));
    let md5_attr = find_elem(desc, "attribute", "id", "MD5").unwrap();
    let expected = format!("{:x}", md5::compute(&archive));
    assert_eq!(attr_of(md5_attr, "value").as_deref(), Some(expected.as_str()));
}

#[test]
fn repeat_activation_appends_siblings() {
    let doc1 = descriptor_doc(&[]);
    let doc2 = descriptor_doc(&[]);
    let archive = b"same archive".to_vec();
    let m1 = build_module_node(extract_mod_config(doc1).unwrap(), &archive);
    let m2 = build_module_node(extract_mod_config(doc2).unwrap(), &archive);

    let mut profile = elem("save", &[], vec![]);
    insert_module(&mut profile, m1);
    insert_module(&mut profile, m2);

    let region = find_elem(&profile, "region", "id", "ModuleSettings").unwrap();
    let root = find_elem(region, "node", "id", "root").unwrap();
    let children = element_children(root)
        .into_iter()
        .find(|e| e.name == "children")
        .unwrap();
    let mods = find_elem(children, "node", "id", "Mods").unwrap();
    let mods_children = element_children(mods)
        .into_iter()
        .find(|e| e.name == "children")
        .unwrap();
    let descs: Vec<&Node> = element_children(mods_children)
        .into_iter()
        .filter(|e| e.name == "node" && attr_of(e, "id").as_deref() == Some("ModuleShortDesc"))
        .collect();
    // Two sibling module entries, never deduplicated.
    assert_eq!(descs.len(), 2);
    // And only one of each intermediate path node.
    assert_eq!(
        element_children(&profile)
            .iter()
            .filter(|e| e.name == "region")
            .count(),
        1
    );
}
