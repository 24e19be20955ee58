use std::collections::HashMap;

use prefab_ids::block::parse_block;
use prefab_ids::block::BlockDescriptor;
use prefab_ids::number::parse_u64;
use prefab_ids::rewrite::replace_ids;
use prefab_ids::split::split_yaml;
use prefab_ids::text::split_lines;
use prefab_ids::text::trim;

/// A small generator of texts over an alphabet that meets every rule of the
/// format often.
struct Texts {
    state: u64,
}

impl Texts {
    fn new(seed: u64) -> Texts {
        Texts { state: seed }
    }

    fn below(&mut self, n: u64) -> u64 {
        self.state = self.state.wrapping_mul(6364136223846793005).wrapping_add(1442695040888963407);
        (self.state >> 33) % n
    }

    fn text(&mut self, alphabet: &[&str], max_len: u64) -> String {
        let len = self.below(max_len + 1);
        let mut out = String::new();
        for _ in 0..len {
            out.push_str(alphabet[self.below(alphabet.len() as u64) as usize]);
        }
        out
    }
}

fn chars(s: &str) -> Vec<char> {
    s.chars().collect()
}

fn split_with_std(s: &str) -> Vec<Option<String>> {
    let mut out = Vec::new();
    let mut index = 0;
    while index < s.len() {
        let rest = &s[index..];
        let end = match rest.find("\n---") {
            Some(at) => index + at + 1,
            None => s.len(),
        };
        if s.as_bytes()[end - 1] != b'\n' {
            out.push(None);
        } else {
            out.push(Some(s[index..end].to_string()));
        }
        index = end;
    }
    out
}

fn rewrite_with_std(s: &str, mapping: &HashMap<u64, u64>) -> String {
    let mut out = String::new();
    let mut run = String::new();
    let mut flush = |run: &mut String, out: &mut String| {
        if !run.is_empty() {
            match run.parse::<u64>().ok().and_then(|v| mapping.get(&v)) {
                Some(target) => out.push_str(&target.to_string()),
                None => out.push_str(run),
            }
            run.clear();
        }
    };
    for c in s.chars() {
        if c.is_ascii_digit() {
            run.push(c);
        } else {
            flush(&mut run, &mut out);
            out.push(c);
        }
    }
    flush(&mut run, &mut out);
    out
}

fn describe_with_std(block: &str, names: &HashMap<u64, String>) -> Option<(u64, BlockDescriptor)> {
    let lines: Vec<&str> = block.lines().collect();
    if lines.len() < 2 {
        return None;
    }
    let id: u64 = lines[0].rsplit_once('&')?.1.trim().parse().ok()?;
    if lines[1].starts_with("GameObject:") {
        let name_line = lines.iter().find(|l| l.starts_with("  m_Name:"))?;
        let name = name_line.split_once(':')?.1.trim();
        Some((id, BlockDescriptor::GameObject(name.to_string())))
    } else {
        let owner_line = lines.iter().find(|l| l.starts_with("  m_GameObject:"))?;
        let owner: u64 = owner_line
            .split_once(':')?
            .1
            .split_once(':')?
            .1
            .split_once('}')?
            .0
            .trim()
            .parse()
            .ok()?;
        let name = names.get(&owner)?;
        Some((id, BlockDescriptor::Others(lines[1].to_string(), name.clone())))
    }
}

#[test]
fn splitting_agrees_with_searching_by_std() {
    let alphabet = ["\n", "-", "-", "---", "\n---", "a", " ", "\r", "\u{e9}"];
    let mut texts = Texts::new(1);
    for _ in 0..3000 {
        let s = texts.text(&alphabet, 12);
        let mut iter = split_yaml(&s);
        let mut found = Vec::new();
        while let Some(item) = iter.next() {
            found.push(item.ok());
        }
        assert_eq!(found, split_with_std(&s), "for {:?}", s);
    }
}

#[test]
fn rewriting_agrees_with_rewriting_run_by_run_by_std() {
    let alphabet = ["0", "1", "2", "9", "12", "-", "+", " ", "\n", "&", "a", "18446744073709551615", "\u{0663}"];
    let mut mapping = HashMap::new();
    mapping.insert(1, 200);
    mapping.insert(12, 3);
    mapping.insert(9, 9);
    mapping.insert(0, 18446744073709551615);
    mapping.insert(18446744073709551615, 0);
    mapping.insert(21, 12);
    let mut texts = Texts::new(2);
    for _ in 0..3000 {
        let s = texts.text(&alphabet, 10);
        assert_eq!(replace_ids(&s, &mapping), rewrite_with_std(&s, &mapping), "for {:?}", s);
    }
}

#[test]
fn reading_a_block_agrees_with_reading_by_std() {
    let first = [
        "--- !u!1 &1", "--- !u!1 & 12 ", "&7", "--- &1 &2", "--- !u!1 &x", "--- 5", "&+7", "&",
        "--- !u!4 &18446744073709551615", "--- !u!4 &18446744073709551616", "",
    ];
    let second = ["GameObject:", "GameObject: x", "Transform:", " GameObject:", "MonoBehaviour:", ""];
    let later = [
        "  m_Name: A", "  m_Name:  B  ", "  m_Name:", "  m_GameObject: {fileID: 1}",
        "  m_GameObject: {fileID: 3}", "  m_GameObject: {fileID: 12 }", "  m_GameObject: 2}",
        "  m_GameObject: {a: b: 2}", "  m_GameObject: {fileID: 7", "  m_GameObject:",
        "  m_Other: 1", "", " m_Name: C", "  m_GameObject: {fileID:\u{3000}+2\u{a0}}",
    ];
    let ends = ["\n", "\n", "\r\n", ""];
    let mut names = HashMap::new();
    names.insert(1, "One".to_string());
    names.insert(2, "Two".to_string());
    names.insert(12, "Twelve".to_string());
    let mut texts = Texts::new(3);
    let mut read = 0;
    for _ in 0..50000 {
        let mut s = String::new();
        let count = texts.below(6);
        for i in 0..count {
            let line = match i {
                0 => texts.text(&first, 1),
                1 => texts.text(&second, 1),
                _ => texts.text(&later, 1),
            };
            s.push_str(&line);
            s.push_str(&texts.text(&ends, 1));
        }
        let found = parse_block(&s, &names).ok();
        let wanted = describe_with_std(&s, &names);
        assert_eq!(found.as_ref().map(|b| (b.id, b.descriptor.clone())), wanted, "for {:?}", s);
        if let Some(block) = found {
            assert_eq!(block.body, s);
            read += 1;
        }
    }
    assert!(read > 300, "only {} blocks were well formed", read);
}

#[test]
fn lines_trim_and_numbers_agree_with_std() {
    let alphabet = ["\n", "\r", "\r\n", " ", "\t", "a", "0", "5", "+", "-", "\u{a0}", "\u{200b}"];
    let mut texts = Texts::new(4);
    for _ in 0..3000 {
        let s = texts.text(&alphabet, 8);
        let found: Vec<String> = split_lines(&chars(&s)).iter().map(|l| l.iter().collect()).collect();
        let wanted: Vec<String> = s.lines().map(|l| l.to_string()).collect();
        assert_eq!(found, wanted, "lines of {:?}", s);
        let trimmed: String = trim(&chars(&s)).iter().collect();
        assert_eq!(trimmed, s.trim(), "trim of {:?}", s);
        assert_eq!(parse_u64(&chars(&s)), s.parse::<u64>().ok(), "number {:?}", s);
        assert_eq!(parse_u64(&chars(s.trim())), s.trim().parse::<u64>().ok(), "number {:?}", s.trim());
    }
}
