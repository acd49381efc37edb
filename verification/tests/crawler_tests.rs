use wiki_rag::crawler::{WikiService, CrawlStep};
use wiki_rag::wikiparse::{extract_clean_text, extract_wiki_links, extract_title, extract_categories};

const PAGE_WITHOUT_LINKS: &str = r#"
<html>
<body>
  <h1 id="firstHeading">Crafting</h1>
  <div id="mw-content-text">
    <div class="mw-parser-output">
      <p>Crafting is a core mechanic that allows players to create tools.</p>
    </div>
  </div>
</body>
</html>
"#;

#[test]
fn test_wiki_status() {
    let wiki_service = WikiService::new("https://wiki.vintagestory.at".to_string());
    let status = wiki_service.get_status().unwrap();

    assert_eq!(status.total_pages, 0);
    assert!(!status.is_updating);
    assert_eq!(status.pages_scraped, 0);
    assert_eq!(status.errors_encountered, 0);
}

#[test]
fn seed_with_no_links_yields_one_page_and_no_errors() {
    let mut wiki = WikiService::new("https://wiki.vintagestory.at".to_string());
    wiki.begin_update(&vec!["https://wiki.vintagestory.at/index.php?title=Crafting".to_string()]);
    assert!(wiki.get_status().unwrap().is_updating);

    match wiki.next_step() {
        CrawlStep::Fetch(url, depth) => {
            assert_eq!(url, "https://wiki.vintagestory.at/index.php?title=Crafting");
            assert_eq!(depth, 0);
            let page = wiki.record_page(&url, PAGE_WITHOUT_LINKS, depth);
            assert_eq!(page.title, "Crafting");
            assert!(page.content.contains("Crafting is a core mechanic"));
        }
        _ => panic!("expected a fetch decision"),
    }
    assert!(matches!(wiki.next_step(), CrawlStep::Done));

    wiki.finish_update("2024-01-01T00:00:00Z".to_string());
    let status = wiki.get_status().unwrap();
    assert_eq!(status.pages_scraped, 1);
    assert_eq!(status.errors_encountered, 0);
    assert_eq!(status.total_pages, 1);
    assert!(!status.is_updating);
    assert_eq!(status.last_update, Some("2024-01-01T00:00:00Z".to_string()));
}

#[test]
fn fetch_failure_counts_error_and_crawl_proceeds() {
    let mut wiki = WikiService::new("https://wiki.vintagestory.at".to_string());
    wiki.begin_update(&vec![
        "https://wiki.vintagestory.at/index.php?title=Broken".to_string(),
        "https://wiki.vintagestory.at/index.php?title=Fine".to_string(),
    ]);

    match wiki.next_step() {
        CrawlStep::Fetch(url, _) => {
            assert_eq!(url, "https://wiki.vintagestory.at/index.php?title=Broken");
            // The fetch came back with HTTP 500: count it and move on.
            wiki.record_failure();
        }
        _ => panic!("expected a fetch decision"),
    }
    let status = wiki.get_status().unwrap();
    assert_eq!(status.errors_encountered, 1);
    assert_eq!(status.pages_scraped, 0);

    // The sibling seed is still crawled.
    match wiki.next_step() {
        CrawlStep::Fetch(url, _) => {
            assert_eq!(url, "https://wiki.vintagestory.at/index.php?title=Fine");
            wiki.record_page(&url, PAGE_WITHOUT_LINKS, 0);
        }
        _ => panic!("expected a fetch decision"),
    }
    let status = wiki.get_status().unwrap();
    assert_eq!(status.errors_encountered, 1);
    assert_eq!(status.pages_scraped, 1);
}

#[test]
fn discovered_links_are_queued_and_visited_once() {
    let html = r#"
    <html><body>
      <h1 id="firstHeading">Hub</h1>
      <div id="mw-content-text"><div class="mw-parser-output">
        <p>A page whose only purpose is to link out to other pages of interest.</p>
      </div></div>
      <a href="/wiki/Tools">Tools</a>
      <a href="/wiki/Crafting">Crafting</a>
    </body></html>
    "#;
    let mut wiki = WikiService::new("https://wiki.vintagestory.at".to_string());
    wiki.begin_update(&vec!["https://wiki.vintagestory.at/index.php?title=Hub".to_string()]);

    let hub_url = match wiki.next_step() {
        CrawlStep::Fetch(url, depth) => {
            wiki.record_page(&url, html, depth);
            url
        }
        _ => panic!("expected a fetch decision"),
    };

    let mut fetched = Vec::new();
    loop {
        match wiki.next_step() {
            CrawlStep::Fetch(url, depth) => {
                assert_eq!(depth, 1);
                wiki.record_page(&url, PAGE_WITHOUT_LINKS, depth);
                fetched.push(url);
            }
            CrawlStep::Skip => continue,
            CrawlStep::Done => break,
        }
    }
    assert_eq!(fetched.len(), 2);
    assert!(fetched.contains(&"https://wiki.vintagestory.at/index.php?title=Tools".to_string()));
    assert!(fetched.contains(&"https://wiki.vintagestory.at/index.php?title=Crafting".to_string()));
    assert!(!fetched.contains(&hub_url));
    assert_eq!(wiki.get_status().unwrap().pages_scraped, 3);
}

#[test]
fn clean_text_keeps_content_and_drops_boilerplate() {
    let html = r#"
    <div class="mw-parser-output">
        <p>This is a paragraph with useful content inside it.</p>
        <div class="mw-editsection">This should be removed entirely from the text.</div>
        <h2>An Important Long Section Heading</h2>
        <p>More useful content here, long enough to be kept.</p>
    </div>
    "#;
    let text = extract_clean_text(html);
    assert!(text.contains("This is a paragraph with useful content"));
    assert!(text.contains("An Important Long Section Heading"));
    assert!(text.contains("More useful content here"));
    assert!(!text.contains("This should be removed"));
}

#[test]
fn wiki_links_are_filtered_and_normalized() {
    let content = r#"
    <div>
        <a href="/wiki/Tools">Tools</a>
        <a href="/wiki/Crafting">Crafting</a>
        <a href="/wiki/File:Example.png">File link</a>
        <a href="/wiki/Special:RecentChanges">Special page</a>
        <a href="https://external.com">External link</a>
        <a href="/wiki/Items#section">Anchor link</a>
        <a href="/wiki/Tools">Tools again</a>
    </div>
    "#;
    let links = extract_wiki_links(content);

    assert!(links.contains(&"/index.php?title=Tools".to_string()));
    assert!(links.contains(&"/index.php?title=Crafting".to_string()));
    assert!(!links.iter().any(|l| l.contains("File:")));
    assert!(!links.iter().any(|l| l.contains("Special:")));
    assert!(!links.iter().any(|l| l.contains('#')));
    assert!(!links.iter().any(|l| l.contains("external.com")));
    // Deduplicated: the repeated link appears once.
    assert_eq!(links.iter().filter(|l| l.as_str() == "/index.php?title=Tools").count(), 1);
}

#[test]
fn title_falls_back_to_the_address() {
    let html = "<html><body><p>No heading here.</p></body></html>";
    let title = extract_title(html, "https://wiki.vintagestory.at/wiki/Clay_forming");
    assert_eq!(title, "Clay forming");
}

#[test]
fn categories_are_extracted_without_their_prefix() {
    let html = r#"
    <html><body>
      <div id="catlinks">
        <a href="/x">Category: Tools </a>
        <a href="/y">Category:Smelting</a>
        <a href="/z">Unrelated</a>
      </div>
    </body></html>
    "#;
    let cats = extract_categories(html);
    assert_eq!(cats, vec!["Tools".to_string(), "Smelting".to_string()]);
}
