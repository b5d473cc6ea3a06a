use semantic_search::cleaner::remove_links;
use semantic_search::extract::extract_sections;

const NAME: &str = "test";

#[test]
fn single_line() {
    let text = "## Test";
    let section_delimeter = r"^## \S*";

    let res = extract_sections(NAME, &" ", text, &section_delimeter).unwrap();

    assert_eq!(res.len(), 1);
    assert_eq!(res.get(0).unwrap().name, "test");
    assert_eq!(res.get(0).unwrap().section, "Test");
    assert_eq!(res.get(0).unwrap().body, "Test");
}

#[test]
fn empty_section() {
    let text = " ";
    let section_delimeter = r".";

    let res = extract_sections(NAME, &" ", text, &section_delimeter).unwrap();

    assert_eq!(res.len(), 0);
}

#[test]
fn empty_section_inbetween() {
    let text = "Test\n \nTest2\n ";
    let section_delimeter = r".";

    let res = extract_sections(NAME, &" ", text, &section_delimeter).unwrap();

    assert_eq!(res.len(), 2);
    assert_eq!(res.get(0).unwrap().section, "Test");
    assert_eq!(res.get(0).unwrap().body, "Test");
    assert_eq!(res.get(1).unwrap().section, "Test2");
    assert_eq!(res.get(1).unwrap().body, "Test2");
}

#[test]
fn empty_body() {
    let text = "## Test\n ";
    let section_delimeter = r"^## \S*";

    let res = extract_sections(NAME, &" ", text, &section_delimeter).unwrap();

    assert_eq!(res.len(), 1);
    assert_eq!(res.get(0).unwrap().name, "test");
    assert_eq!(res.get(0).unwrap().section, "Test");
    assert_eq!(res.get(0).unwrap().body, "Test");
}

#[test]
fn non_empty_body() {
    let text = "## Test\nThis is a test body.";
    let section_delimeter = r"^## \S*";

    let res = extract_sections(NAME, &" ", text, &section_delimeter).unwrap();

    assert_eq!(res.len(), 1);
    assert_eq!(res.get(0).unwrap().name, "test");
    assert_eq!(res.get(0).unwrap().section, "Test");
    assert_eq!(res.get(0).unwrap().body, "Test This is a test body.");
}

#[test]
fn double_line() {
    let text = "## Test\n## Test2";
    let section_delimeter = r"^## .*";

    let res = extract_sections(NAME, &" ", text, &section_delimeter).unwrap();

    assert_eq!(res.len(), 2);
    assert_eq!(res.get(0).unwrap().name, "test");
    assert_eq!(res.get(0).unwrap().section, "Test");
    assert_eq!(res.get(0).unwrap().body, "Test");
    assert_eq!(res.get(1).unwrap().name, "test");
    assert_eq!(res.get(1).unwrap().section, "Test2");
    assert_eq!(res.get(1).unwrap().body, "Test2");
}

#[test]
fn match_all_headers() {
    let text = "# Test1\ncontent1\n## Test2\ncontent2\n### Test3\ncontent3\n#### Test4\ncontent4\n##### Test5\ncontent5\n###### Test6\ncontent6";
    let section_delimeter = r"^#{1,6} ";

    let res = extract_sections(NAME, &" ", text, &section_delimeter).unwrap();
    println!("{:?}", res);

    assert_eq!(res.len(), 6);
    assert_eq!(res.get(0).unwrap().name, "test");
    assert_eq!(res.get(0).unwrap().section, "Test1");
    assert_eq!(res.get(0).unwrap().body, "Test1 content1");
    assert_eq!(res.get(1).unwrap().name, "test");
    assert_eq!(res.get(1).unwrap().section, "Test2");
    assert_eq!(res.get(1).unwrap().body, "Test2 content2");
    assert_eq!(res.get(2).unwrap().name, "test");
    assert_eq!(res.get(2).unwrap().section, "Test3");
    assert_eq!(res.get(2).unwrap().body, "Test3 content3");
    assert_eq!(res.get(3).unwrap().name, "test");
    assert_eq!(res.get(3).unwrap().section, "Test4");
    assert_eq!(res.get(3).unwrap().body, "Test4 content4");
    assert_eq!(res.get(4).unwrap().name, "test");
    assert_eq!(res.get(4).unwrap().section, "Test5");
    assert_eq!(res.get(4).unwrap().body, "Test5 content5");
    assert_eq!(res.get(5).unwrap().name, "test");
    assert_eq!(res.get(5).unwrap().section, "Test6");
    assert_eq!(res.get(5).unwrap().body, "Test6 content6");
}

#[test]
fn diff_headers() {
    let text = "# Test1\ncontent1\n## Test2\ncontent2\n### Test3\ncontent3\n#### Test4\ncontent4\n##### Test5\ncontent5\n###### Test6\ncontent6";
    let section_delimeter = r"^### \S*";

    let res = extract_sections(NAME, &" ", text, &section_delimeter).unwrap();

    assert_eq!(res.len(), 2);
    assert_eq!(res.get(1).unwrap().name, "test");
    assert_eq!(res.get(1).unwrap().section, "Test3");
    assert_eq!(
        res.get(1).unwrap().body,
        "Test3 content3 Test4 content4 Test5 content5 Test6 content6"
    );
}

#[test]
fn remove_http_link() {
    let text = "![](https://test-link)";

    let res = remove_links(text);

    assert_eq!(res.len(), 0);
}

#[test]
fn remove_pasted_image() {
    let text = "![Pasted image 20220415211535](Pics/Pasted%20image%2020220415211535.png)";

    let res = remove_links(text);

    assert_eq!(res.len(), 0);
}

#[test]
fn remove_embedded() {
    let text = "## Test\n![Pasted image 20220415211535](Pics/Pasted%20image%2020220415211535.png)\n### Test2\n![Pasted image 20220415211535](Pics/Pasted%20image%2020220415211535.png)";

    let res = remove_links(text);

    assert_eq!(res, "## Test\n\n### Test2\n");
}

#[test]
fn diff_header_with_links() {
    let text = "## Test\n![Pasted image 20220415211535](Pics/Pasted%20image%2020220415211535.png)\n### Test2\n![Pasted image 20220415211535](Pics/Pasted%20image%2020220415211535.png)";
    let section_delimeter = "^## .*";

    let res = extract_sections(NAME, &" ", text, &section_delimeter).unwrap();
    println!("{:?}", res.get(0));

    assert_eq!(res.len(), 1);
    assert_eq!(res.get(0).unwrap().name, "test");
    assert_eq!(res.get(0).unwrap().section, "Test");
    assert_eq!(res.get(0).unwrap().body, "Test Test2");
}

#[test]
fn sample_note() {
    let text = "## Unreliable Broadcast
Does not guarantee anything. Such events are allowed:
![](https://i.imgur.com/rgh87f2.png)
## Best Effort Broadcast
Guarantees reliability only if sender is correct
- BEB1. Best-effort-Validity: If pi and pj are correct, then any broadcast by pi is eventually delivered by pj  
- BEB2. No duplication: No message delivered more than once  
- BEB3. No creation: No message delivered unless broadcast
![](https://i.imgur.com/LdLrtA0.png)
";
    let section_delimeter = "##";

    let res = extract_sections(NAME, &" ", text, &section_delimeter).unwrap();
    println!("{:?}", res.get(0));

    assert_eq!(res.len(), 2);
    assert_eq!(res.get(0).unwrap().name, "test");
    assert_eq!(res.get(0).unwrap().section, "Unreliable Broadcast");
    assert_eq!(
        res.get(0).unwrap().body,
        "Unreliable Broadcast Does not guarantee anything. Such events are allowed:"
    );
    assert_eq!(res.get(1).unwrap().name, "test");
    assert_eq!(res.get(1).unwrap().section, "Best Effort Broadcast");
    assert_eq!(res.get(1).unwrap().body, "Best Effort Broadcast Guarantees reliability only if sender is correct \
- BEB1. Best-effort-Validity: If pi and pj are correct, then any broadcast by pi is eventually delivered by pj \
- BEB2. No duplication: No message delivered more than once \
- BEB3. No creation: No message delivered unless broadcast");
}

#[test]
fn no_delimeter() {
    let text = "## Test\n![Pasted image 20220415211535](Pics/Pasted%20image%2020220415211535.png)\n### Test2\n![Pasted image 20220415211535](Pics/Pasted%20image%2020220415211535.png)";
    let section_delimeter = "";

    let res = extract_sections(NAME, &" ", text, &section_delimeter).unwrap();
    println!("{:?}", res.get(0));

    assert_eq!(res.len(), 2);
    assert_eq!(res.get(0).unwrap().name, "test");
    assert_eq!(res.get(0).unwrap().section, "Test");
    assert_eq!(res.get(0).unwrap().body, "Test");
    assert_eq!(res.get(1).unwrap().name, "test");
    assert_eq!(res.get(1).unwrap().section, "Test2");
    assert_eq!(res.get(1).unwrap().body, "Test2");
}
