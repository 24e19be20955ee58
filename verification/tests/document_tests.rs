use prefab_ids::block::Block;
use prefab_ids::block::BlockDescriptor;
use prefab_ids::document::dump_yaml;
use prefab_ids::document::parse_blocks;
use prefab_ids::document::split_document;
use std::collections::HashMap;
use prefab_ids::document::parse_yaml;
use prefab_ids::document::PrefabFile;
use prefab_ids::error::Error;

const HEADER: &str = "%YAML 1.1\n%TAG !u! tag:unity3d.com,2011:\n";

const PLAYER: &str = "--- !u!1 &100\nGameObject:\n  m_Component:\n  - component: {fileID: 200}\n  m_Name: Player\n";

const TRANSFORM: &str = "--- !u!4 &200\nTransform:\n  m_GameObject: {fileID: 100}\n  m_Father: {fileID: 0}\n";

fn game_object(name: &str) -> BlockDescriptor {
    BlockDescriptor::GameObject(name.to_string())
}

fn others(kind: &str, owner: &str) -> BlockDescriptor {
    BlockDescriptor::Others(kind.to_string(), owner.to_string())
}

#[test]
fn parse_yaml_reads_header_and_blocks() {
    let text = format!("{}{}{}", HEADER, PLAYER, TRANSFORM);
    let doc = parse_yaml(&text).unwrap();
    assert_eq!(
        doc,
        PrefabFile {
            header: HEADER.to_string(),
            blocks: vec![
                Block { body: PLAYER.to_string(), id: 100, descriptor: game_object("Player") },
                Block {
                    body: TRANSFORM.to_string(),
                    id: 200,
                    descriptor: others("Transform:", "Player"),
                },
            ],
        }
    );
}

#[test]
fn a_record_may_stand_before_its_owner() {
    let text = format!("{}{}{}", HEADER, TRANSFORM, PLAYER);
    let doc = parse_yaml(&text).unwrap();
    assert_eq!(doc.blocks[0].descriptor, others("Transform:", "Player"));
    assert_eq!(doc.blocks[1].descriptor, game_object("Player"));
}

#[test]
fn a_document_may_have_no_blocks() {
    let doc = parse_yaml(HEADER).unwrap();
    assert_eq!(doc, PrefabFile { header: HEADER.to_string(), blocks: vec![] });
}

#[test]
fn a_document_may_begin_with_a_block() {
    let doc = parse_yaml("\n--- !u!1 &1\nGameObject:\n  m_Name: A\n").unwrap();
    assert_eq!(doc.header, "\n");
    assert_eq!(doc.blocks.len(), 1);
    let doc = parse_yaml("--- !u!1 &1\nGameObject:\n  m_Name: A\n").unwrap();
    assert_eq!(doc.header, "--- !u!1 &1\nGameObject:\n  m_Name: A\n");
    assert_eq!(doc.blocks.len(), 0);
}

#[test]
fn the_last_container_with_an_id_names_the_owner() {
    let text = "h\n--- !u!1 &1\nGameObject:\n  m_Name: A\n--- !u!4 &2\nTransform:\n  m_GameObject: {fileID: 1}\n--- !u!1 &1\nGameObject:\n  m_Name: B\n";
    let doc = parse_yaml(text).unwrap();
    assert_eq!(doc.blocks[0].descriptor, game_object("A"));
    assert_eq!(doc.blocks[1].descriptor, others("Transform:", "B"));
    assert_eq!(doc.blocks[2].descriptor, game_object("B"));
}

#[test]
fn parse_yaml_fails_on_the_empty_text() {
    assert_eq!(parse_yaml(""), Err(Error::StructuralParse));
}

#[test]
fn parse_yaml_fails_without_line_feed_at_the_end() {
    assert_eq!(parse_yaml("header"), Err(Error::StructuralParse));
    let text = format!("{}{}", HEADER, PLAYER);
    assert_eq!(parse_yaml(text.trim_end()), Err(Error::StructuralParse));
}

#[test]
fn parse_yaml_fails_on_a_malformed_block() {
    assert_eq!(parse_yaml("h\n--- !u!1 &1\n"), Err(Error::StructuralParse));
    assert_eq!(parse_yaml("h\n---\n---\n"), Err(Error::StructuralParse));
    assert_eq!(
        parse_yaml("h\n--- !u!1 &1\nGameObject:\n  m_Layer: 0\n"),
        Err(Error::StructuralParse)
    );
    assert_eq!(
        parse_yaml("h\n--- !u!4 &x\nTransform:\n  m_GameObject: {fileID: 1}\n"),
        Err(Error::StructuralParse)
    );
}

#[test]
fn parse_yaml_fails_for_a_record_without_its_owner() {
    let text = format!("{}{}", HEADER, TRANSFORM);
    assert_eq!(parse_yaml(&text), Err(Error::StructuralParse));
}

#[test]
fn dump_yaml_writes_header_and_bodies() {
    let doc = PrefabFile {
        header: "head\n".to_string(),
        blocks: vec![
            Block { body: "one\n".to_string(), id: 1, descriptor: game_object("x") },
            Block { body: "two\n".to_string(), id: 2, descriptor: game_object("y") },
        ],
    };
    assert_eq!(dump_yaml(&doc), "head\none\ntwo\n");
}

#[test]
fn dump_yaml_of_a_document_without_blocks_is_its_header() {
    let doc = PrefabFile { header: "head\n".to_string(), blocks: vec![] };
    assert_eq!(dump_yaml(&doc), "head\n");
    let doc = PrefabFile { header: String::new(), blocks: vec![] };
    assert_eq!(dump_yaml(&doc), "");
}

#[test]
fn a_document_is_written_back_as_it_was_read() {
    for text in [
        format!("{}{}{}", HEADER, PLAYER, TRANSFORM),
        format!("{}{}{}{}", HEADER, TRANSFORM, PLAYER, TRANSFORM),
        HEADER.to_string(),
        "\n".to_string(),
        "h\r\n--- !u!1 &1\r\nGameObject:\r\n  m_Name: \u{30d7}\u{30ec}\u{30a4}\u{30e4}\u{30fc}\r\n".to_string(),
    ] {
        let doc = parse_yaml(&text).unwrap();
        assert_eq!(dump_yaml(&doc), text);
    }
}

#[test]
fn split_document_gives_header_and_block_texts() {
    let text = format!("{}{}{}", HEADER, PLAYER, TRANSFORM);
    assert_eq!(
        split_document(&text),
        Ok((HEADER.to_string(), vec![PLAYER.to_string(), TRANSFORM.to_string()]))
    );
    assert_eq!(split_document("h\n"), Ok(("h\n".to_string(), vec![])));
    assert_eq!(
        split_document("\n---\n---\n"),
        Ok(("\n".to_string(), vec!["---\n".to_string(), "---\n".to_string()]))
    );
}

#[test]
fn split_document_fails_on_an_empty_or_unfinished_text() {
    assert_eq!(split_document(""), Err(Error::StructuralParse));
    assert_eq!(split_document("h"), Err(Error::StructuralParse));
    assert_eq!(split_document("h\n--- a\nb"), Err(Error::StructuralParse));
}

#[test]
fn parse_blocks_reads_each_text_with_the_given_names() {
    let mut names = HashMap::new();
    names.insert(100, "Hero".to_string());
    let texts = vec![TRANSFORM.to_string(), PLAYER.to_string()];
    let blocks = parse_blocks(&texts, &names).unwrap();
    assert_eq!(blocks.len(), 2);
    assert_eq!(blocks[0].descriptor, others("Transform:", "Hero"));
    assert_eq!(blocks[1].descriptor, game_object("Player"));
    assert_eq!(blocks[0].body, TRANSFORM);
    assert_eq!(blocks[1].id, 100);
    assert_eq!(parse_blocks(&vec![], &names), Ok(vec![]));
}

#[test]
fn parse_blocks_fails_where_one_text_does() {
    let texts = vec![PLAYER.to_string(), TRANSFORM.to_string()];
    assert_eq!(parse_blocks(&texts, &HashMap::new()), Err(Error::StructuralParse));
}
