use rust_browser::css::{CSSParseError, CSSParser};
use rust_browser::dom::{Node, NodeType};
use rust_browser::html::HTMLParser;
use rust_browser::layout::{BoxType, LayoutBox, LayoutEngine};
use rust_browser::paint::{paint, PaintCommand};
use rust_browser::style::{resolve, StyleTree};
use rust_browser::title::extract_title;

fn tag(n: &Node) -> String {
    match &n.node_type {
        NodeType::Element(t) => t.clone(),
        _ => panic!("not an element"),
    }
}

fn text(n: &Node) -> String {
    match &n.node_type {
        NodeType::Text(t) => t.clone(),
        _ => panic!("not a text node"),
    }
}

fn is_document(n: &Node) -> bool {
    matches!(n.node_type, NodeType::Document)
}

fn style_of<'a>(tree: &'a StyleTree, path: &[usize]) -> &'a StyleTree {
    let mut t = tree;
    for &i in path {
        t = &t.children[i];
    }
    t
}

fn same_geometry(a: &LayoutBox, b: &LayoutBox) -> bool {
    a.dimensions == b.dimensions
        && a.box_type == b.box_type
        && a.text == b.text
        && a.children.len() == b.children.len()
        && a.children.iter().zip(b.children.iter()).all(|(x, y)| same_geometry(x, y))
}

#[test]
fn parse_nested_structure() {
    let root = HTMLParser::parse("<div><p>Hi</p></div>");
    assert!(is_document(&root));
    assert_eq!(root.children.len(), 1);
    let div = &root.children[0];
    assert_eq!(tag(div), "div");
    assert_eq!(div.children.len(), 1);
    let p = &div.children[0];
    assert_eq!(tag(p), "p");
    assert_eq!(p.children.len(), 1);
    assert_eq!(text(&p.children[0]), "Hi");
}

#[test]
fn whitespace_only_text_is_dropped() {
    let root = HTMLParser::parse("<div>   </div>");
    assert_eq!(root.children.len(), 1);
    assert_eq!(tag(&root.children[0]), "div");
    assert_eq!(root.children[0].children.len(), 0);
}

#[test]
fn duplicate_attribute_last_wins() {
    let root = HTMLParser::parse("<a href='x' href='y'>");
    let a = &root.children[0];
    assert_eq!(tag(a), "a");
    assert_eq!(a.get_attribute("href"), Some("y".to_string()));
    assert_eq!(a.attributes.len(), 1);
}

#[test]
fn attribute_forms() {
    let root = HTMLParser::parse("<input type=text disabled value=\"a b\" data-x='1'>");
    let input = &root.children[0];
    assert_eq!(tag(input), "input");
    assert_eq!(input.get_attribute("type"), Some("text".to_string()));
    assert_eq!(input.get_attribute("disabled"), Some(String::new()));
    assert_eq!(input.get_attribute("value"), Some("a b".to_string()));
    assert_eq!(input.get_attribute("data-x"), Some("1".to_string()));
    assert_eq!(input.get_attribute("missing"), None);
}

#[test]
fn unmatched_closing_tag_is_ignored() {
    let root = HTMLParser::parse("<div></span>x</div>");
    let div = &root.children[0];
    assert_eq!(div.children.len(), 1);
    assert_eq!(text(&div.children[0]), "x");
}

#[test]
fn open_elements_close_at_end() {
    let root = HTMLParser::parse("<div><p>a");
    let div = &root.children[0];
    assert_eq!(tag(div), "div");
    assert_eq!(tag(&div.children[0]), "p");
    assert_eq!(text(&div.children[0].children[0]), "a");
}

#[test]
fn closing_tag_closes_inner_elements() {
    let root = HTMLParser::parse("<div><p>a</div><span>b</span>");
    assert_eq!(root.children.len(), 2);
    assert_eq!(tag(&root.children[0]), "div");
    assert_eq!(tag(&root.children[0].children[0]), "p");
    assert_eq!(tag(&root.children[1]), "span");
}

#[test]
fn void_and_self_closing_tags_take_no_children() {
    let root = HTMLParser::parse("<p>a<br>b<img src=x/>c</p>");
    let p = &root.children[0];
    assert_eq!(p.children.len(), 5);
    assert_eq!(tag(&p.children[1]), "br");
    assert_eq!(p.children[1].children.len(), 0);
    assert_eq!(tag(&p.children[3]), "img");
    assert_eq!(text(&p.children[4]), "c");
}

#[test]
fn comments_and_doctype_are_skipped() {
    let root = HTMLParser::parse("<!DOCTYPE html><!-- note --><b>x</b>");
    assert_eq!(root.children.len(), 1);
    assert_eq!(tag(&root.children[0]), "b");
}

#[test]
fn empty_and_malformed_markup() {
    let root = HTMLParser::parse("");
    assert!(is_document(&root));
    assert_eq!(root.children.len(), 0);
    let root = HTMLParser::parse("a < b");
    assert_eq!(root.children.len(), 2);
    assert_eq!(text(&root.children[0]), "a ");
    assert_eq!(text(&root.children[1]), "< b");
}

#[test]
fn dom_building_calls() {
    let mut div = Node::new_element("div");
    div.set_attribute("id", "a");
    div.set_attribute("id", "b");
    div.set_attribute("class", "c");
    assert_eq!(div.attributes().len(), 2);
    assert_eq!(div.get_attribute("id"), Some("b".to_string()));
    div.add_child(Node::new_text("hello"));
    assert_eq!(div.children().len(), 1);
    assert_eq!(text(&div.children()[0]), "hello");
    div.children_mut().push(Node::new_element("span"));
    assert_eq!(div.children().len(), 2);
    div.attributes_mut().clear();
    assert_eq!(div.get_attribute("id"), None);
}

#[test]
fn css_rules_and_declarations() {
    let (sheet, errs) = CSSParser::parse("h1, .a#b { color : red ; margin-top:  10px   2px }");
    assert!(errs.is_empty());
    assert_eq!(sheet.rules.len(), 1);
    let rule = &sheet.rules[0];
    assert_eq!(rule.selectors.len(), 2);
    assert_eq!(rule.selectors[0].tag_name, Some("h1".to_string()));
    assert_eq!(rule.selectors[1].tag_name, None);
    assert_eq!(rule.selectors[1].id, Some("b".to_string()));
    assert_eq!(rule.selectors[1].classes, vec!["a".to_string()]);
    assert_eq!(rule.declarations.len(), 2);
    assert_eq!(rule.declarations[0].name, "color");
    assert_eq!(rule.declarations[0].value, "red");
    assert_eq!(rule.declarations[1].name, "margin-top");
    assert_eq!(rule.declarations[1].value, "10px 2px");
}

#[test]
fn css_comments_are_skipped() {
    let (sheet, errs) = CSSParser::parse("/* top */ p { color: blue; } /* end */");
    assert!(errs.is_empty());
    assert_eq!(sheet.rules.len(), 1);
    assert_eq!(sheet.rules[0].declarations[0].value, "blue");
}

#[test]
fn malformed_rule_recovery() {
    let (sheet, errs) = CSSParser::parse("{bad} .ok{color:red;}");
    assert_eq!(sheet.rules.len(), 1);
    assert_eq!(sheet.rules[0].selectors[0].classes, vec!["ok".to_string()]);
    assert_eq!(sheet.rules[0].declarations[0].value, "red");
    assert_eq!(errs, vec![CSSParseError::UnterminatedSelector]);
}

#[test]
fn invalid_selector_skips_rule() {
    let (sheet, errs) = CSSParser::parse("div > p { color: red } p { color: blue }");
    assert_eq!(sheet.rules.len(), 1);
    assert_eq!(sheet.rules[0].declarations[0].value, "blue");
    assert_eq!(errs, vec![CSSParseError::UnterminatedSelector]);
}

#[test]
fn declaration_without_colon_is_an_error() {
    let (sheet, errs) = CSSParser::parse("p { color red; width: 5px }");
    assert_eq!(sheet.rules.len(), 1);
    assert_eq!(sheet.rules[0].declarations.len(), 1);
    assert_eq!(sheet.rules[0].declarations[0].name, "width");
    assert_eq!(sheet.rules[0].declarations[0].value, "5px");
    assert_eq!(errs, vec![CSSParseError::UnterminatedDeclaration]);
}

#[test]
fn trailing_text_without_body_is_an_error() {
    let (sheet, errs) = CSSParser::parse("p { color: red } garbage");
    assert_eq!(sheet.rules.len(), 1);
    assert_eq!(errs, vec![CSSParseError::UnterminatedSelector]);
}

#[test]
fn unterminated_body_keeps_its_declaration() {
    let (sheet, errs) = CSSParser::parse("p { color: red");
    assert!(errs.is_empty());
    assert_eq!(sheet.rules[0].declarations[0].value, "red");
}

#[test]
fn specificity_id_beats_class() {
    let root = HTMLParser::parse("<p id=\"a\" class=\"b\">x</p>");
    let (sheet, _) = CSSParser::parse("#a{color:red;} .b{color:blue;}");
    let styles = resolve(&root, &sheet);
    let p = style_of(&styles, &[0]);
    assert_eq!(p.style.get("color"), Some("red".to_string()));
}

#[test]
fn source_order_breaks_ties() {
    let root = HTMLParser::parse("<p class=\"b\">x</p>");
    let (sheet, _) = CSSParser::parse(".b{color:blue;} .b{color:green;}");
    let styles = resolve(&root, &sheet);
    assert_eq!(style_of(&styles, &[0]).style.get("color"), Some("green".to_string()));
}

#[test]
fn class_list_matching_and_inheritance() {
    let root = HTMLParser::parse("<div class=\"x  y\"><span>t</span></div><div class=\"xy\"></div>");
    let (sheet, _) = CSSParser::parse(".x.y { color: red; margin-top: 3px } div { color: blue }");
    let styles = resolve(&root, &sheet);
    let first = style_of(&styles, &[0]);
    assert_eq!(first.style.get("color"), Some("red".to_string()));
    assert_eq!(first.style.get("margin-top"), Some("3px".to_string()));
    let span = style_of(&styles, &[0, 0]);
    assert_eq!(span.style.get("color"), Some("red".to_string()));
    assert_eq!(span.style.get("margin-top"), None);
    let text = style_of(&styles, &[0, 0, 0]);
    assert_eq!(text.style.get("color"), Some("red".to_string()));
    assert_eq!(style_of(&styles, &[1]).style.get("color"), Some("blue".to_string()));
}

#[test]
fn layout_stacks_blocks() {
    let root = HTMLParser::parse("<div><div class=\"a\"></div><div class=\"b\"></div></div>");
    let (sheet, _) = CSSParser::parse(".a { padding-top: 10px } .b { padding-top: 20px }");
    let styles = resolve(&root, &sheet);
    let tree = LayoutEngine::layout(&root, &styles, 800);
    let parent = &tree.children[0];
    assert_eq!(parent.box_type, BoxType::Block);
    assert_eq!(parent.children[0].dimensions.content.y, 0);
    assert_eq!(parent.children[1].dimensions.content.y, 10);
    assert_eq!(parent.dimensions.content.height, 30);
    assert_eq!(tree.dimensions.content.height, 30);
}

#[test]
fn layout_widths_and_box_types() {
    let root = HTMLParser::parse("<div><span>t</span><em style=\"\">u</em></div>");
    let (sheet, _) = CSSParser::parse(
        "div { margin-left: 10px; padding-right: 5px; border-left-width: 1px } em { display: block }",
    );
    let styles = resolve(&root, &sheet);
    let tree = LayoutEngine::layout(&root, &styles, 100);
    assert_eq!(tree.dimensions.content.width, 100);
    let div = &tree.children[0];
    assert_eq!(div.dimensions.content.width, 84);
    assert_eq!(div.dimensions.margin.left, 10);
    assert_eq!(div.children[0].box_type, BoxType::Inline);
    assert_eq!(div.children[0].dimensions.content.width, 84);
    assert_eq!(div.children[1].box_type, BoxType::Block);
    assert_eq!(div.children[0].children[0].text, Some("t".to_string()));
}

#[test]
fn layout_degenerate_width() {
    let root = HTMLParser::parse("<div><p>x</p></div>");
    let (sheet, _) = CSSParser::parse("div { margin-left: 50px }");
    let styles = resolve(&root, &sheet);
    let tree = LayoutEngine::layout(&root, &styles, -20);
    assert_eq!(tree.dimensions.content.width, 0);
    assert_eq!(tree.children[0].dimensions.content.width, 0);
    let tree = LayoutEngine::layout(&root, &styles, 30);
    assert_eq!(tree.children[0].dimensions.content.width, 0);
}

#[test]
fn layout_is_repeatable() {
    let root = HTMLParser::parse("<div><p class=\"a\">x</p><p>y</p></div>");
    let (sheet, _) = CSSParser::parse(".a { padding-top: 7px; margin-bottom: 2px }");
    let styles = resolve(&root, &sheet);
    let first = LayoutEngine::layout(&root, &styles, 640);
    let second = LayoutEngine::layout(&root, &styles, 640);
    assert!(same_geometry(&first, &second));
    assert_eq!(first.children[0].children[1].dimensions.content.y, 9);
}

#[test]
fn paint_is_pre_order() {
    let root = HTMLParser::parse("<div><p>hi</p></div>");
    let (sheet, _) = CSSParser::parse("p { margin-top: 4px }");
    let styles = resolve(&root, &sheet);
    let tree = LayoutEngine::layout(&root, &styles, 200);
    let cmds = paint(&tree);
    assert_eq!(cmds.len(), 7);
    assert!(matches!(cmds[0], PaintCommand::FillRect(_, _)));
    assert!(matches!(cmds[1], PaintCommand::StrokeRect(_, _, 1)));
    match &cmds[6] {
        PaintCommand::DrawText(x, y, t) => {
            assert_eq!(*x, 0);
            assert_eq!(*y, 0);
            assert_eq!(t, "hi");
        }
        _ => panic!("expected text last"),
    }
    match &cmds[4] {
        PaintCommand::FillRect(r, c) => {
            assert_eq!(r.width, 200);
            assert_eq!(c.r, 255);
        }
        _ => panic!("expected the paragraph's fill"),
    }
}

#[test]
fn title_is_found_and_trimmed() {
    assert_eq!(extract_title("<html><title>  My Page \n</title></html>"), Some("My Page".to_string()));
    assert_eq!(extract_title("<html><body>none</body></html>"), None);
    assert_eq!(extract_title("</title><title>x"), None);
    assert_eq!(extract_title("<title></title>"), Some(String::new()));
}

#[test]
fn nested_elements_parse_back() {
    let root = HTMLParser::parse("<div><p></p><ul><li></li><li></li></ul></div>");
    assert_eq!(root.children.len(), 1);
    let div = &root.children[0];
    assert_eq!(div.children.len(), 2);
    assert_eq!(tag(&div.children[0]), "p");
    assert_eq!(div.children[0].children.len(), 0);
    let ul = &div.children[1];
    assert_eq!(tag(ul), "ul");
    assert_eq!(ul.children.len(), 2);
    assert_eq!(tag(&ul.children[1]), "li");
}

#[test]
fn text_between_tags_keeps_inner_spaces() {
    let root = HTMLParser::parse("<p> a b </p>\n<p>\n</p>");
    assert_eq!(root.children.len(), 2);
    assert_eq!(text(&root.children[0].children[0]), " a b ");
    assert_eq!(root.children[1].children.len(), 0);
}

#[test]
fn universal_selector_is_rejected() {
    let (sheet, errs) = CSSParser::parse("*{color:red;} p{color:blue}");
    assert_eq!(sheet.rules.len(), 1);
    assert_eq!(sheet.rules[0].selectors[0].tag_name, Some("p".to_string()));
    assert_eq!(errs, vec![CSSParseError::UnterminatedSelector]);
}

#[test]
fn declaration_name_must_be_identifier() {
    let (sheet, errs) = CSSParser::parse("p{a b:x; c:y}");
    assert_eq!(sheet.rules[0].declarations.len(), 1);
    assert_eq!(sheet.rules[0].declarations[0].name, "c");
    assert_eq!(errs, vec![CSSParseError::UnterminatedDeclaration]);
}

#[test]
fn comments_inside_rules_are_skipped() {
    let (sheet, errs) = CSSParser::parse("p /* x */ { /* n */ color: /* c */ red } /* open");
    assert!(errs.is_empty());
    assert_eq!(sheet.rules.len(), 1);
    assert_eq!(sheet.rules[0].selectors[0].tag_name, Some("p".to_string()));
    assert_eq!(sheet.rules[0].declarations[0].name, "color");
    assert_eq!(sheet.rules[0].declarations[0].value, "red");
}

#[test]
fn written_markup_with_attributes_parses_back() {
    let root = HTMLParser::parse("<div id=\"m\" class=\"a b\"><p>x</p></div>text<span></span>");
    assert_eq!(root.children.len(), 3);
    let div = &root.children[0];
    assert_eq!(div.get_attribute("id"), Some("m".to_string()));
    assert_eq!(div.get_attribute("class"), Some("a b".to_string()));
    assert_eq!(text(&div.children[0].children[0]), "x");
    assert_eq!(text(&root.children[1]), "text");
    assert_eq!(tag(&root.children[2]), "span");
}

#[test]
fn broken_leading_rule_leaves_the_rest_alone() {
    let rest = "p { color: red } q { a b: c; width: 2px }";
    let (alone, alone_errs) = CSSParser::parse(rest);
    let (sheet, errs) = CSSParser::parse(&format!("{{bad}} {}", rest));
    assert_eq!(sheet.rules.len(), alone.rules.len());
    for (x, y) in sheet.rules.iter().zip(alone.rules.iter()) {
        assert_eq!(x.selectors.len(), y.selectors.len());
        assert_eq!(x.selectors[0].tag_name, y.selectors[0].tag_name);
        assert_eq!(x.declarations.len(), y.declarations.len());
    }
    let mut expected = vec![CSSParseError::UnterminatedSelector];
    expected.extend(alone_errs);
    assert_eq!(errs, expected);
    assert_eq!(errs.len(), 2);
}

#[test]
fn unicode_whitespace_text_is_dropped() {
    let root = HTMLParser::parse("<p>\u{0B}</p><p>\u{A0}\u{3000} </p><p>\u{A0}x</p>");
    assert_eq!(root.children.len(), 3);
    assert_eq!(root.children[0].children.len(), 0);
    assert_eq!(root.children[1].children.len(), 0);
    assert_eq!(text(&root.children[2].children[0]), "\u{A0}x");
    let root = HTMLParser::parse("\u{0B}");
    assert_eq!(root.children.len(), 0);
}

#[test]
fn declaration_values_are_trimmed_like_str_trim() {
    let (sheet, errs) = CSSParser::parse("p{c:a\u{3000}} q{d: \u{A0}b  c\u{A0}}");
    assert!(errs.is_empty());
    assert_eq!(sheet.rules[0].declarations[0].value, "a");
    assert_eq!(sheet.rules[1].declarations[0].value, "b c");
}

#[test]
fn markup_comments_end_at_their_closing_marker() {
    let root = HTMLParser::parse("<!-- a > b --><b>x</b><!-- open");
    assert_eq!(root.children.len(), 1);
    assert_eq!(tag(&root.children[0]), "b");
    assert_eq!(text(&root.children[0].children[0]), "x");
}

#[test]
fn title_is_trimmed_of_unicode_whitespace() {
    assert_eq!(extract_title("<title>\u{A0}Page\u{3000}</title>"), Some("Page".to_string()));
}
