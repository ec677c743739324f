use justlatex::doc::{
    child_path, push_final_node, raw_html, replace_at, walk_and_create_final_node, walk_document,
    walk_inline, walk_inlines, Found, Json, Member,
};
use justlatex::fragment::FragmentType;
use justlatex::meta::{
    config_overrides, meta_blocks_to_string, meta_inlines_to_string, walk_meta, MetaValue, Override,
};
use serde_json::Value;

fn to_json(value: &Value) -> Json {
    match value {
        Value::Null => Json::Null,
        Value::Bool(b) => Json::Bool(*b),
        Value::Number(n) => Json::Number(n.to_string()),
        Value::String(s) => Json::Text(s.clone()),
        Value::Array(items) => Json::List(items.iter().map(to_json).collect()),
        Value::Object(members) => Json::Object(
            members.iter().map(|(key, value)| Member { key: key.clone(), value: to_json(value) }).collect(),
        ),
    }
}

fn json(text: &str) -> Json {
    to_json(&serde_json::from_str::<Value>(text).unwrap())
}

fn node_at<'a>(mut value: &'a Json, path: &[usize]) -> &'a Json {
    for step in path {
        value = match value {
            Json::List(items) => &items[*step],
            Json::Object(members) => &members[*step].value,
            _ => panic!("the way leads nowhere"),
        };
    }
    value
}

fn math(kind: &str, src: &str) -> String {
    format!(r#"{{"t":"Math","c":[{{"t":"{}"}},{}]}}"#, kind, serde_json::to_string(src).unwrap())
}

fn document(blocks: &str) -> Json {
    json(&format!(r#"{{"pandoc-api-version":[1,22],"meta":{{}},"blocks":[{}]}}"#, blocks))
}

fn summary(found: &[Found]) -> Vec<(FragmentType, &str, bool)> {
    found.iter().map(|f| (f.ty, f.src.as_str(), f.inline)).collect()
}

fn context(tree: &Json) -> String {
    walk_document(tree).unwrap_err().context
}

#[test]
fn a_walk_that_fails_keeps_what_it_found_before() {
    let nameless = r#"{"t":"Math","c":[{"t":"InlineMath"}]}"#;
    let list = json(&format!("[{},{},{}]", math("InlineMath", "a"), nameless, math("InlineMath", "b")));
    let mut out = vec![];
    let result = walk_inlines(&list, &vec![], "Para", &mut out);
    assert_eq!(result.unwrap_err().context, "reading source of Math");
    assert_eq!(summary(&out), vec![(FragmentType::InlineMath, "a", true)]);
    assert!(walk_inline(&json(nameless), &vec![], &mut out).is_err());
    assert_eq!(summary(&out), vec![(FragmentType::InlineMath, "a", true)]);
    let unknown = r#"{"t":"Math","c":[{"t":"Maths"},"x"]}"#;
    assert_eq!(walk_inline(&json(unknown), &vec![], &mut out).unwrap_err().context, "unknown math type Maths");
    assert_eq!(out.len(), 1);
}

#[test]
fn fragments_are_found_in_document_order() {
    let blocks = [
        format!(r#"{{"t":"Para","c":[{{"t":"Str","c":"a"}},{},{{"t":"Space"}},{{"t":"Emph","c":[{}]}}]}}"#,
            math("InlineMath", "x+1"), math("DisplayMath", " %raw\nz")),
        format!(r#"{{"t":"Header","c":[1,["id",[],[]],[{}]]}}"#, math("InlineMath", "h")),
        r#"{"t":"RawBlock","c":["tex","\\def\\x{1}"]}"#.to_string(),
        r#"{"t":"RawBlock","c":["html","<b>"]}"#.to_string(),
        r#"{"t":"RawBlock","c":["tex","%dontshow\n\\def"]}"#.to_string(),
        format!(r#"{{"t":"BulletList","c":[[{{"t":"Plain","c":[{}]}}],[]]}}"#, math("DisplayMath", "b")),
        format!(r#"{{"t":"OrderedList","c":[[1,{{"t":"Decimal"}},{{"t":"Period"}}],[[{{"t":"Para","c":[{}]}}]]]}}"#,
            math("DisplayMath", "%dontshow o")),
        format!(r#"{{"t":"Div","c":[["",[],[]],[[{{"t":"BlockQuote","c":[{{"t":"Plain","c":[{{"t":"Link","c":[["",[],[]],[{}],["u",""]]}}]}}]}}]]]}}"#,
            math("InlineMath", "l")),
        format!(r#"{{"t":"LineBlock","c":[[{}],[{{"t":"Strong","c":[{}]}}]]}}"#,
            math("InlineMath", "l1"), math("InlineMath", "l2")),
        r#"{"t":"HorizontalRule"}"#.to_string(),
        format!(r#"{{"t":"Plain","c":[{{"t":"Image","c":[["",[],[]],[{{"t":"Strikeout","c":[{{"t":"Underline","c":[{}]}}]}}],["u",""]]}}]}}"#,
            math("InlineMath", "i")),
    ];
    let tree = document(&blocks.join(","));
    let found = walk_document(&tree).unwrap();
    assert_eq!(
        summary(&found),
        vec![
            (FragmentType::InlineMath, "x+1", true),
            (FragmentType::RawBlock, " %raw\nz", true),
            (FragmentType::InlineMath, "h", true),
            (FragmentType::RawBlock, "\\def\\x{1}", false),
            (FragmentType::DontShow, "%dontshow\n\\def", false),
            (FragmentType::DisplayMath, "b", true),
            (FragmentType::DontShow, "%dontshow o", true),
            (FragmentType::InlineMath, "l", true),
            (FragmentType::InlineMath, "l1", true),
            (FragmentType::InlineMath, "l2", true),
            (FragmentType::InlineMath, "i", true),
        ]
    );
    for f in found.iter() {
        let node = node_at(&tree, &f.path);
        let kind = if f.inline { "Math" } else { "RawBlock" };
        match node {
            Json::Object(members) => {
                assert!(members.iter().any(|m| m.key == "t" && m.value == Json::Text(kind.to_string())));
                let content = &members.iter().find(|m| m.key == "c").unwrap().value;
                assert_eq!(node_at(content, &[1]), &Json::Text(f.src.clone()));
            }
            _ => panic!("a fragment that is no node"),
        }
    }
    assert_eq!(found[0].path.len(), 4);
    assert_eq!(found[0].path[1], 0);
    assert_eq!(found[0].path[3], 1);
    assert_eq!(found[3].path.len(), 2);
    assert_eq!(found[3].path[1], 2);
}

#[test]
fn tables_are_walked_part_by_part() {
    let cell = |src: &str| {
        format!(r#"[["",[],[]],{{"t":"AlignDefault"}},1,1,[{{"t":"Plain","c":[{}]}}]]"#, math("InlineMath", src))
    };
    let row = |cells: &[String]| format!(r#"[["",[],[]],[{}]]"#, cells.join(","));
    let table = format!(
        r#"{{"t":"Table","c":[["",[],[]],[null,[{{"t":"Plain","c":[{}]}}]],[],[["",[],[]],[{}]],[[["",[],[]],0,[{}],[{},{}]],[["",[],[]],0,[],[]]],[["",[],[]],[{}]]]}}"#,
        math("InlineMath", "caption"),
        row(&[cell("head 1"), cell("head 2")]),
        row(&[cell("body head")]),
        row(&[cell("body 1")]),
        row(&[cell("body 2"), cell("body 3")]),
        row(&[cell("foot")]),
    );
    let tree = document(&table);
    let found = walk_document(&tree).unwrap();
    let sources: Vec<&str> = found.iter().map(|f| f.src.as_str()).collect();
    assert_eq!(
        sources,
        vec!["caption", "head 1", "head 2", "body head", "body 1", "body 2", "body 3", "foot"]
    );
    for f in found.iter() {
        assert_eq!(node_at(node_at(&tree, &f.path), &[0, 1]), &Json::Text(f.src.clone()));
    }
    let short = document(r#"{"t":"Table","c":[["",[],[]]]}"#);
    assert_eq!(walk_document(&short).unwrap().len(), 0);
}

#[test]
fn documents_of_the_wrong_shape_are_refused() {
    assert_eq!(context(&json("{}")), "reading [blocks] of the Document");
    assert_eq!(context(&json("[]")), "reading [blocks] of the Document");
    assert_eq!(context(&json(r#"{"blocks":3}"#)), "reading [blocks] of the Document");
    assert_eq!(context(&document("3")), "reading type of Block");
    assert_eq!(context(&document(r#"{"t":3}"#)), "reading type of Block");
    assert_eq!(context(&document(r#"{"c":[]}"#)), "reading type of Block");
    assert_eq!(context(&document(r#"{"t":"Para"}"#)), "reading Para.[Inline]");
    assert_eq!(context(&document(r#"{"t":"Plain","c":{}}"#)), "reading Plain.[Inline]");
    assert_eq!(context(&document(r#"{"t":"Para","c":[1]}"#)), "reading type of Inline");
    assert_eq!(context(&document(r#"{"t":"Para","c":[{"t":"Emph"}]}"#)), "reading Emph.[Inline]");
    assert_eq!(context(&document(r#"{"t":"Para","c":[{"t":"Link","c":[1]}]}"#)), "reading Link.[Inline]");
    assert_eq!(context(&document(r#"{"t":"Para","c":[{"t":"Image","c":[1,2]}]}"#)), "reading Image.[Inline]");
    assert_eq!(context(&document(r#"{"t":"Header","c":[1,2]}"#)), "reading Header.[Inline]");
    assert_eq!(context(&document(r#"{"t":"LineBlock","c":1}"#)), "reading LineBlock.[[Inline]]");
    assert_eq!(context(&document(r#"{"t":"LineBlock","c":[1]}"#)), "reading LineBlock.[Inline]");
    assert_eq!(context(&document(r#"{"t":"BlockQuote","c":1}"#)), "reading BlockQuote.[Block]");
    assert_eq!(context(&document(r#"{"t":"BulletList","c":1}"#)), "reading BulletList.[[Block]]");
    assert_eq!(context(&document(r#"{"t":"BulletList","c":[1]}"#)), "reading BulletList.[Block]");
    assert_eq!(context(&document(r#"{"t":"OrderedList","c":[1]}"#)), "reading OrderedList.[[Block]]");
    assert_eq!(context(&document(r#"{"t":"Div","c":[1,2]}"#)), "reading Div.[[Block]]");
    assert_eq!(context(&document(r#"{"t":"RawBlock","c":[1,"x"]}"#)), "reading format of RawBlock");
    assert_eq!(context(&document(r#"{"t":"RawBlock","c":["tex"]}"#)), "reading source of RawBlock");
    assert_eq!(walk_document(&document(r#"{"t":"RawBlock","c":["html"]}"#)).unwrap().len(), 0);
    assert_eq!(context(&document(r#"{"t":"Table","c":1}"#)), "reading contents of Table");
    assert_eq!(context(&document(r#"{"t":"Table","c":[0,1]}"#)), "reading Table.Caption.[Block]");
    assert_eq!(context(&document(r#"{"t":"Table","c":[0,[0,[]],2,3]}"#)), "reading Table.TableHead.[Row]");
    assert_eq!(context(&document(r#"{"t":"Table","c":[0,[0,[]],2,[0,[1]]]}"#)), "reading Table.TableHead.[Row].[Cell]");
    assert_eq!(
        context(&document(r#"{"t":"Table","c":[0,[0,[]],2,[0,[[0,[1]]]]]}"#)),
        "reading [Cell] of Row of TableHead of Table.[Block]"
    );
    assert_eq!(context(&document(r#"{"t":"Table","c":[0,[0,[]],2,[0,[]],4]}"#)), "reading Table.[TableBody]");
    assert_eq!(
        context(&document(r#"{"t":"Table","c":[0,[0,[]],2,[0,[]],[4]]}"#)),
        "reading content of Table.[TableBody]"
    );
    assert_eq!(
        context(&document(r#"{"t":"Table","c":[0,[0,[]],2,[0,[]],[[0,1,2]]]}"#)),
        "reading Table.[TableBody].[Row].[Row]"
    );
    assert_eq!(
        context(&document(r#"{"t":"Table","c":[0,[0,[]],2,[0,[]],[],5]}"#)),
        "reading Table.TableFoot.[Row]"
    );
    let para = |inline: &str| document(&format!(r#"{{"t":"Para","c":[{}]}}"#, inline));
    assert_eq!(context(&para(r#"{"t":"Math"}"#)), "reading type of Math");
    assert_eq!(context(&para(r#"{"t":"Math","c":[{"t":"InlineMath"}]}"#)), "reading source of Math");
    assert_eq!(context(&para(r#"{"t":"Math","c":[{"t":"Other"},"x"]}"#)), "unknown math type Other");
    let second = document(&format!(r#"{{"t":"Para","c":[{}]}},{{"t":"Para","c":3}}"#, math("InlineMath", "x")));
    assert_eq!(context(&second), "reading Para.[Inline]");
}

#[test]
fn nodes_are_replaced_by_markup() {
    let mut tree = document(&format!(r#"{{"t":"Para","c":[{{"t":"Str","c":"a"}},{}]}}"#, math("InlineMath", "x")));
    let found = walk_document(&tree).unwrap();
    assert_eq!(found.len(), 1);
    let last = push_final_node(&mut tree).unwrap();
    assert_eq!(node_at(&tree, &last), &Json::Object(vec![]));
    assert_eq!(last[1], 1);
    assert!(replace_at(&mut tree, &found[0].path, raw_html(true, "<img>".to_string())));
    assert!(replace_at(&mut tree, &last, raw_html(false, "<script>".to_string())));
    assert_eq!(node_at(&tree, &found[0].path), &raw_html(true, "<img>".to_string()));
    assert_eq!(node_at(&tree, &last), &raw_html(false, "<script>".to_string()));
    let mut beside = found[0].path.clone();
    *beside.last_mut().unwrap() = 0;
    assert_eq!(node_at(&tree, &beside), &json(r#"{"t":"Str","c":"a"}"#));
    assert_eq!(
        raw_html(true, "<img>".to_string()),
        Json::Object(vec![
            Member { key: "t".to_string(), value: Json::Text("RawInline".to_string()) },
            Member {
                key: "c".to_string(),
                value: Json::List(vec![Json::Text("html".to_string()), Json::Text("<img>".to_string())])
            },
        ])
    );
    let mut far = child_path(&last, 7);
    assert_eq!(far, vec![last[0], last[1], 7]);
    let before = format!("{:?}", tree);
    assert!(!replace_at(&mut tree, &far, Json::Null));
    far[1] = 99;
    assert!(!replace_at(&mut tree, &far, Json::Null));
    assert_eq!(format!("{:?}", tree), before);
    assert!(replace_at(&mut tree, &vec![], Json::Null));
    assert_eq!(tree, Json::Null);
    assert_eq!(push_final_node(&mut tree), None);
    let mut no_blocks = json(r#"{"blocks":{}}"#);
    assert_eq!(push_final_node(&mut no_blocks), None);
}

fn overrides(found: &[Override]) -> Vec<(String, String)> {
    found
        .iter()
        .map(|o| {
            (
                o.key.clone(),
                match &o.value {
                    MetaValue::Text(s) => format!("text:{}", s),
                    MetaValue::Flag(b) => format!("flag:{}", b),
                },
            )
        })
        .collect()
}

fn pair(key: &str, value: &str) -> (String, String) {
    (key.to_string(), value.to_string())
}

#[test]
fn metadata_overrides_the_configuration() {
    let tree = json(
        r#"{"blocks":[],"meta":{
            "author":{"t":"MetaInlines","c":[{"t":"Str","c":"me"}]},
            "jlconfig":{"t":"MetaMap","c":{
                "latex":{"t":"MetaString","c":"xelatex"},
                "optimizer":{"t":"MetaMap","c":{"enabled":{"t":"MetaBool","c":true}}},
                "template":{"t":"MetaMap","c":{"header":{"t":"MetaList","c":[
                    {"t":"MetaInlines","c":[{"t":"Str","c":"big"},{"t":"Space"},{"t":"Emph","c":[{"t":"Code","c":[[],"$x$"]}]}]},
                    {"t":"MetaBlocks","c":[{"t":"Para","c":[{"t":"Str","c":"p"}]},{"t":"CodeBlock","c":[[],"code"]}]}
                ]}}}
            }},
            "jlconfig.mode":{"t":"MetaInlines","c":[{"t":"Str","c":"dvi"}]},
            "jlconfigx":{"t":"MetaBool","c":false},
            "title":{"t":"MetaInlines","c":[]}
        }}"#,
    );
    assert_eq!(
        overrides(&config_overrides(&tree).unwrap()),
        vec![
            pair("latex", "text:xelatex"),
            pair("optimizer.enabled", "flag:true"),
            pair("template.header[0]", "text:big $x$"),
            pair("template.header[1]", "text:p\ncode\n"),
            pair("mode", "text:dvi"),
        ]
    );
    assert_eq!(overrides(&config_overrides(&json(r#"{"meta":{}}"#)).unwrap()), vec![]);
}

fn meta_context(tree: &str) -> String {
    config_overrides(&json(tree)).unwrap_err().context
}

#[test]
fn metadata_of_the_wrong_shape_is_refused() {
    assert_eq!(meta_context(r#"{}"#), "reading document metadata");
    assert_eq!(meta_context(r#"{"meta":[]}"#), "reading document metadata");
    assert_eq!(
        meta_context(r#"{"meta":{"jlconfig":{"t":"MetaString","c":"x"}}}"#),
        "in Front Matter configuration, jlconfig must be a map!"
    );
    assert_eq!(
        meta_context(r#"{"meta":{"jlconfig":3}}"#),
        "in Front Matter configuration, jlconfig must be a map!"
    );
    assert_eq!(meta_context(r#"{"meta":{"jlconfig":{"t":"MetaMap","c":[]}}}"#), "reading map of MetaMap");
    assert_eq!(meta_context(r#"{"meta":{"jlconfig.a":3}}"#), "reading type of Meta");
    assert_eq!(meta_context(r#"{"meta":{"jlconfig.a":{"t":"MetaMap"}}}"#), "reading map of MetaMap");
    assert_eq!(meta_context(r#"{"meta":{"jlconfig.a":{"t":"MetaList","c":{}}}}"#), "reading array of MetaList");
    assert_eq!(meta_context(r#"{"meta":{"jlconfig.a":{"t":"MetaString","c":1}}}"#), "reading value of MetaString");
    assert_eq!(meta_context(r#"{"meta":{"jlconfig.a":{"t":"MetaBool","c":"true"}}}"#), "reading value of MetaBool");
    assert_eq!(meta_context(r#"{"meta":{"jlconfig.a":{"t":"MetaOther"}}}"#), "unsupported Meta type: MetaOther");
    assert_eq!(meta_context(r#"{"meta":{"jlconfig.a":{"t":"MetaInlines"}}}"#), "reading Meta.[Inline]");
    assert_eq!(meta_context(r#"{"meta":{"jlconfig.a":{"t":"MetaBlocks","c":1}}}"#), "reading Meta.[Block]");
    let inlines = |inline: &str| format!(r#"{{"meta":{{"jlconfig.a":{{"t":"MetaInlines","c":[{}]}}}}}}"#, inline);
    assert_eq!(meta_context(&inlines("1")), "reading type of Meta.Inline");
    assert_eq!(meta_context(&inlines(r#"{"t":"Str"}"#)), "reading content of Meta.Inline.Str");
    assert_eq!(
        meta_context(&inlines(r#"{"t":"Math","c":["x"]}"#)),
        "reading content of Meta.Inline.RawInline/Code/Math"
    );
    assert_eq!(meta_context(&inlines(r#"{"t":"Strong","c":1}"#)), "reading Meta.[Inline]");
    assert_eq!(meta_context(&inlines(r#"{"t":"Link","c":[]}"#)), "unsupported Inline type in Meta: Link");
    let blocks = |block: &str| format!(r#"{{"meta":{{"jlconfig.a":{{"t":"MetaBlocks","c":[{}]}}}}}}"#, block);
    assert_eq!(meta_context(&blocks("1")), "reading type of Meta.Block");
    assert_eq!(meta_context(&blocks(r#"{"t":"Table"}"#)), "unsupported Inline type in Meta: Table");
    assert_eq!(
        meta_context(&blocks(r#"{"t":"RawBlock","c":["tex"]}"#)),
        "reading content of Meta.Block.RawBlock/CodeBlock"
    );
}

#[test]
fn metadata_is_read_as_text() {
    let mut text = "> ".to_string();
    let inlines =
        json(r#"[{"t":"Str","c":"a"},{"t":"Space"},{"t":"RawInline","c":["tex","\\b"]},{"t":"Underline","c":[{"t":"Math","c":[{"t":"InlineMath"},"c"]}]}]"#);
    assert!(meta_inlines_to_string(&inlines, &mut text).is_ok());
    assert_eq!(text, "> a \\bc");
    let blocks = json(r#"[{"t":"Plain","c":[{"t":"Str","c":"x"}]},{"t":"RawBlock","c":["tex","y"]},{"t":"Para","c":[]}]"#);
    assert!(meta_blocks_to_string(&blocks, &mut text).is_ok());
    assert_eq!(text, "> a \\bcx\ny\n\n");
    let mut found = vec![];
    assert!(walk_meta(&json(r#"{"t":"MetaString","c":"v"}"#), "k", &mut found).is_ok());
    assert_eq!(overrides(&found), vec![pair("k", "text:v")]);
}

#[test]
fn final_node_is_created_after_the_walk() {
    let mut tree = document(&format!(r#"{{"t":"Para","c":[{}]}}"#, math("InlineMath", "x")));
    let (found, last) = walk_and_create_final_node(&mut tree).unwrap();
    assert_eq!(summary(&found), vec![(FragmentType::InlineMath, "x", true)]);
    assert_eq!(node_at(&tree, &last), &Json::Object(vec![]));
    assert_eq!(last[1], 1);
    let mut wrong = document(r#"{"t":"Para"}"#);
    let before = format!("{:?}", wrong);
    assert_eq!(walk_and_create_final_node(&mut wrong).unwrap_err().context, "reading Para.[Inline]");
    assert_eq!(format!("{:?}", wrong), before);
}
