use grex::document::{Document, XmlNode};
use grex::grex::grex_document;
use grex::ungrex::{UngrexOutcome, ungrex};

/// The document that an XML parser gives for `tests/valid/pizzeria.xml`
/// (the example of the README), whitespace text nodes included.
fn pizzeria() -> Document {
    let mut d = Document::new();
    let r = d.create_root("pizzeria");
    d.set_attribute(r, "rating", "2.3");
    d.set_attribute(r, "name", "Panucci's Pizza");
    d.append_text(r, "\n  ");
    let loc = d.append_element(r, "location");
    d.append_text(loc, "\n    ");
    let addr = d.append_element(loc, "address");
    d.append_text(addr, "1020 West 57th Street, New York, NY");
    d.append_text(loc, "\n    ");
    let phone = d.append_element(loc, "phone");
    d.append_text(phone, "(212) 555-PIZZA");
    d.append_text(loc, "\n  ");
    d.append_text(r, "\n  ");
    let menu = d.append_element(r, "menu");
    for (name, price) in [("Cheese", "14.99"), ("Pepperoni", "15.99"), ("Anchovy Special", "17.99")] {
        d.append_text(menu, "\n    ");
        let p = d.append_element(menu, "pizza");
        d.set_attribute(p, "name", name);
        d.set_attribute(p, "price", price);
    }
    d.append_text(menu, "\n  ");
    d.append_text(r, "\n");
    d
}

/// What `grex tests/valid/pizzeria.xml` writes.
fn run_grex_pizzeria() -> String {
    let mut out = String::new();
    for line in grex_document(&pizzeria()) {
        out.push_str(&line);
        out.push('\n');
    }
    out
}

fn run_ungrex(input: &str) -> Document {
    match ungrex(input) {
        UngrexOutcome::Built(d) => d,
        _ => panic!("ungrex failed"),
    }
}

fn element_names(d: &Document) -> Vec<String> {
    d.nodes
        .iter()
        .filter_map(|n| match n {
            XmlNode::Element(e) => Some(e.name.clone()),
            _ => None,
        })
        .collect()
}

/// The elements reachable from the root, in document order.
fn reachable(d: &Document) -> Vec<usize> {
    let mut out = Vec::new();
    let mut stack: Vec<usize> = d.root.into_iter().collect();
    while let Some(i) = stack.pop() {
        out.push(i);
        if let XmlNode::Element(e) = &d.nodes[i] {
            for &c in e.children.iter().rev() {
                if let XmlNode::Element(_) = &d.nodes[c] {
                    stack.push(c);
                }
            }
        }
    }
    out
}

fn attribute_values(d: &Document) -> Vec<String> {
    reachable(d)
        .into_iter()
        .flat_map(|i| match &d.nodes[i] {
            XmlNode::Element(e) => e.attributes.iter().map(|a| a.1.clone()).collect::<Vec<_>>(),
            _ => vec![],
        })
        .collect()
}

#[test]
fn workflow_grep_filter_attributes() {
    let grex_output = run_grex_pizzeria();

    let filtered: Vec<&str> = grex_output
        .lines()
        .filter(|line| line.contains("@price"))
        .collect();

    assert_eq!(filtered.len(), 3);
    assert!(filtered[0].contains("14.99"));
    assert!(filtered[1].contains("15.99"));
    assert!(filtered[2].contains("17.99"));
}

#[test]
fn workflow_grep_filter_path() {
    let grex_output = run_grex_pizzeria();

    let filtered: Vec<&str> = grex_output
        .lines()
        .filter(|line| line.contains("/location/"))
        .collect();

    assert_eq!(filtered.len(), 2);
    assert!(filtered.iter().any(|line| line.contains("address")));
    assert!(filtered.iter().any(|line| line.contains("phone")));
}

#[test]
fn workflow_grep_filter_value() {
    let grex_output = run_grex_pizzeria();

    let filtered: Vec<&str> = grex_output
        .lines()
        .filter(|line| line.contains("Anchovy"))
        .collect();

    assert_eq!(filtered.len(), 1);
    assert!(filtered[0].contains("/pizzeria/menu/pizza[3]/@name"));
}

#[test]
fn workflow_filter_and_reconstruct() {
    let grex_output = run_grex_pizzeria();

    let filtered: String = grex_output
        .lines()
        .filter(|line| !line.contains("/menu/pizza"))
        .collect::<Vec<&str>>()
        .join("\n");

    let reconstructed = run_ungrex(&filtered);
    let names: Vec<String> = reachable(&reconstructed)
        .into_iter()
        .map(|i| match &reconstructed.nodes[i] {
            XmlNode::Element(e) => e.name.clone(),
            _ => String::new(),
        })
        .collect();

    // the document has a root element named `pizzeria`
    assert!(reconstructed.root.is_some());
    assert_eq!(names[0], "pizzeria");
    // `<location>`: an element `location` without attributes
    assert!(reachable(&reconstructed).into_iter().any(|i| match &reconstructed.nodes[i] {
        XmlNode::Element(e) => e.name == "location" && e.attributes.is_empty(),
        _ => false,
    }));

    // no `<pizza` element
    assert!(!names.iter().any(|n| n.starts_with("pizza")));
    assert!(!element_names(&reconstructed).iter().any(|n| n.starts_with("pizza")));
}

#[test]
fn workflow_sed_style_value_replacement() {
    let grex_output = run_grex_pizzeria();

    let modified = grex_output.replace("Panucci's Pizza", "Joe's Pizza");

    let reconstructed = run_ungrex(&modified);
    let values = attribute_values(&reconstructed);

    assert!(values.iter().any(|v| v.contains("Joe's Pizza")));
    assert!(!values.iter().any(|v| v.contains("Panucci's Pizza")));
}

#[test]
fn grex_pizzeria_matches_readme() {
    let expected = "\
/pizzeria/@name = Panucci's Pizza
/pizzeria/@rating = 2.3
/pizzeria/location/address/text() = 1020 West 57th Street, New York, NY
/pizzeria/location/phone/text() = (212) 555-PIZZA
/pizzeria/menu/pizza[1]/@name = Cheese
/pizzeria/menu/pizza[1]/@price = 14.99
/pizzeria/menu/pizza[2]/@name = Pepperoni
/pizzeria/menu/pizza[2]/@price = 15.99
/pizzeria/menu/pizza[3]/@name = Anchovy Special
/pizzeria/menu/pizza[3]/@price = 17.99
";
    assert_eq!(run_grex_pizzeria(), expected);
}

#[test]
fn pizzeria_roundtrip_is_stable() {
    let grex_output = run_grex_pizzeria();
    let rebuilt = run_ungrex(&grex_output);
    let again: String = grex_document(&rebuilt).into_iter().map(|l| l + "\n").collect();
    assert_eq!(again, grex_output);
}

#[test]
fn merge_by_concatenation_adds_a_pizza() {
    let updates = "/pizzeria/menu/pizza[4]/@name = Veggie Supreme\n/pizzeria/menu/pizza[4]/@price = 16.99\n";
    let merged = run_grex_pizzeria() + updates;
    let rebuilt = run_ungrex(&merged);
    let lines = grex_document(&rebuilt);
    assert_eq!(lines.len(), 12);
    assert_eq!(lines[10], "/pizzeria/menu/pizza[4]/@name = Veggie Supreme");
    assert_eq!(lines[11], "/pizzeria/menu/pizza[4]/@price = 16.99");
}
