//! Extraction against a larger product-listing page: many products,
//! nested structures and a variety of selectors in one spec.

use html2json::json::JsonValue;
use html2json::Spec;
use html2json::extract;

const LARGE_HTML: &str = r##"
<header class="site-header">
  <span class="logo">TechStore</span>
  <div class="cart-info"><span class="cart-count">3</span><span class="cart-total">$1,249.97</span></div>
</header>
<section class="hero">
  <h1>Summer Sale - Up to 50% Off!</h1>
  <p class="hero-subtitle">Limited time offer on premium electronics</p>
  <div class="hero-stats">
    <span class="stat">500+ Products</span>
    <span class="stat">24/7 Support</span>
    <span class="stat">Free Returns</span>
  </div>
</section>
<nav class="category-list">
  <a href="/category/laptops" data-cat-id="1">Laptops</a>
  <a href="/category/phones" data-cat-id="2">Phones</a>
  <a href="/category/audio" data-cat-id="3">Audio</a>
  <a href="/category/wearables" data-cat-id="4">Wearables</a>
</nav>
<main class="product-grid">
  <div class="product-card" data-product-id="101" data-in-stock="true">
    <div class="product-image">
      <img src="/images/laptop-pro.jpg" alt="TechPro Laptop">
      <span class="badge">SALE</span>
    </div>
    <div class="product-info">
      <h2 class="product-title">TechPro Laptop 15"</h2>
      <p class="product-description">A powerful workstation with 16GB RAM and a fast SSD.</p>
      <span class="spec">Intel Core i7</span>
      <span class="spec">16GB RAM</span>
      <span class="spec">512GB SSD</span>
      <div class="product-rating">
        <span class="stars">&#9733;&#9733;&#9733;&#9733;&#9734;</span>
        <span class="review-count">(245 reviews)</span>
      </div>
      <div class="product-pricing">
        <span class="price-current">$899.99</span>
        <span class="price-original">$1,199.99</span>
        <span class="discount">25% OFF</span>
      </div>
    </div>
  </div>
  <div class="product-card" data-product-id="102" data-in-stock="true">
    <div class="product-image">
      <img src="/images/phone-x.jpg" alt="Photon Phone">
    </div>
    <div class="product-info">
      <h2 class="product-title">Photon Phone X</h2>
      <p class="product-description">A bright display and all-day battery.</p>
      <span class="spec">6.1 inch OLED</span>
      <div class="product-rating">
        <span class="stars">&#9733;&#9733;&#9733;&#9733;&#9733;</span>
        <span class="review-count">(512 reviews)</span>
      </div>
      <div class="product-pricing">
        <span class="price-current">$699.00</span>
      </div>
    </div>
  </div>
  <div class="product-card" data-product-id="103" data-in-stock="false">
    <div class="product-image">
      <img src="/images/headset.jpg" alt="Quiet Headset">
      <span class="badge">OUT OF STOCK</span>
    </div>
    <div class="product-info">
      <h2 class="product-title">Quiet Headset</h2>
      <p class="product-description">Noise cancelling over-ear headphones.</p>
      <span class="spec">Bluetooth 5</span>
      <div class="product-pricing">
        <span class="price-current">$249.50</span>
      </div>
    </div>
  </div>
  <div class="product-card" data-product-id="104" data-in-stock="true">
    <div class="product-image">
      <img src="/images/watch.jpg" alt="Pace Watch">
    </div>
    <div class="product-info">
      <h2 class="product-title">Pace Watch</h2>
      <p class="product-description">Tracks steps, sleep and heart rate.</p>
      <div class="product-pricing">
        <span class="price-current">$199.95</span>
      </div>
    </div>
  </div>
  <div class="product-card" data-product-id="105" data-in-stock="true">
    <div class="product-image">
      <img src="/images/tablet.jpg" alt="Slate Tablet">
    </div>
    <div class="product-info">
      <h2 class="product-title">Slate Tablet</h2>
      <p class="product-description">Light, thin, and sharp.</p>
      <div class="product-pricing">
        <span class="price-current">$449.00</span>
      </div>
    </div>
  </div>
  <div class="product-card" data-product-id="106" data-in-stock="true">
    <div class="product-image">
      <img src="/images/speaker.jpg" alt="Boom Speaker">
    </div>
    <div class="product-info">
      <h2 class="product-title">Boom Speaker</h2>
      <p class="product-description">Room-filling sound in a small box.</p>
      <div class="product-pricing">
        <span class="price-current">$129.99</span>
      </div>
    </div>
  </div>
</main>
<section class="newsletter">
  <h2>Subscribe to Our Newsletter</h2>
  <p>Get exclusive deals and updates delivered to your inbox</p>
</section>
<section class="feature-list">
  <div class="feature"><h3>Free Shipping</h3><p>On orders over $50</p></div>
  <div class="feature"><h3>Easy Returns</h3><p>Within 30 days</p></div>
  <div class="feature"><h3>Secure Checkout</h3><p>Payments you can trust</p></div>
  <div class="feature"><h3>Expert Support</h3><p>Real people, real answers</p></div>
</section>
<footer class="site-footer">
  <div class="footer-section"><p>Your trusted source for premium electronics since 2010.</p></div>
  <div class="footer-section"><ul><li>support@techstore.example</li></ul></div>
  <div class="footer-section"><a class="social">Chirper</a><a class="social">Fotogram</a></div>
</footer>
"##;

fn from_serde(v: &serde_json::Value) -> JsonValue {
    match v {
        serde_json::Value::Null => JsonValue::Null,
        serde_json::Value::Bool(b) => JsonValue::Bool(*b),
        serde_json::Value::Number(n) => match serde_json::Number::from_f64(n.as_f64().unwrap_or(0.0))
        {
            Some(m) => JsonValue::Num(m.to_string()),
            None => JsonValue::Null,
        },
        serde_json::Value::String(s) => JsonValue::Text(s.clone()),
        serde_json::Value::Array(items) => JsonValue::Arr(items.iter().map(from_serde).collect()),
        serde_json::Value::Object(map) => {
            JsonValue::Obj(map.iter().map(|(k, v)| (k.clone(), from_serde(v))).collect())
        }
    }
}

fn to_serde(v: &JsonValue) -> serde_json::Value {
    match v {
        JsonValue::Null => serde_json::Value::Null,
        JsonValue::Bool(b) => serde_json::Value::Bool(*b),
        JsonValue::Int(i) => serde_json::Value::Number(serde_json::Number::from(*i)),
        JsonValue::Num(s) => serde_json::Value::Number(s.parse().unwrap()),
        JsonValue::Text(s) => serde_json::Value::String(s.clone()),
        JsonValue::Arr(items) => serde_json::Value::Array(items.iter().map(to_serde).collect()),
        JsonValue::Obj(fields) => {
            let mut map = serde_json::Map::new();
            for (k, v) in fields {
                map.insert(k.clone(), to_serde(v));
            }
            serde_json::Value::Object(map)
        }
    }
}

fn run(spec_text: &str) -> serde_json::Value {
    let v: serde_json::Value = serde_json::from_str(spec_text).unwrap();
    let spec = Spec::from_json(&from_serde(&v)).unwrap();
    to_serde(&extract(LARGE_HTML, &spec).unwrap())
}

#[test]
fn comprehensive_extraction() {
    let result = run(
        r#"{
        "$": "body",
        "siteName": ".logo",
        "cart": {
            "$": ".cart-info",
            "itemCount": ".cart-count",
            "total": ".cart-total"
        },
        "hero": {
            "$": ".hero",
            "title": "h1",
            "subtitle": ".hero-subtitle",
            "stats": [{ "$": ".stat", "text": "$" }]
        },
        "categories": [{ "$": ".category-list a", "name": "$", "url": "$ | attr:href", "id": "$ | attr:data-cat-id | parseAs:int" }],
        "products": [{
            "$": ".product-card",
            "id": "$ | attr:data-product-id | parseAs:int",
            "inStock": "$ | attr:data-in-stock",
            "title": "> .product-info .product-title",
            "description": "> .product-info .product-description",
            "badges": [{ "$": "> .product-image .badge", "text": "$" }],
            "specs": [{ "$": "> .product-info .spec", "name": "$" }],
            "rating": {
                "$": "> .product-info .product-rating",
                "stars": ".stars",
                "reviewCount": ".review-count | regex:\\((\\d+)\\s*reviews\\)"
            },
            "pricing": {
                "$": "> .product-info .product-pricing",
                "current": ".price-current | regex:\\$(\\d+\\.\\d+)",
                "original": ".price-original | regex:\\$(\\d+\\.\\d+)",
                "discount": ".discount"
            }
        }],
        "newsletter": {
            "$": ".newsletter",
            "title": "h2",
            "description": "p"
        },
        "features": [{ "$": ".feature", "title": "h3", "text": "p" }],
        "footer": {
            "$": ".site-footer",
            "about": "> .footer-section:nth-of-type(1) p",
            "email": "> .footer-section:nth-of-type(2) li",
            "socialLinks": [{ "$": "> .footer-section:nth-of-type(3) .social", "platform": "$" }]
        }
    }"#,
    );

    assert_eq!(result["siteName"], "TechStore");

    println!(
        "cart result: {}",
        serde_json::to_string_pretty(&result["cart"]).unwrap()
    );
    assert_eq!(result["cart"]["itemCount"], "3");
    assert_eq!(result["cart"]["total"], "$1,249.97");

    assert_eq!(result["hero"]["title"], "Summer Sale - Up to 50% Off!");
    assert_eq!(
        result["hero"]["subtitle"],
        "Limited time offer on premium electronics"
    );
    let hero_stats = result["hero"]["stats"].as_array().unwrap();
    assert_eq!(hero_stats.len(), 3);
    assert_eq!(hero_stats[0]["text"], "500+ Products");

    let categories = result["categories"].as_array().unwrap();
    assert_eq!(categories.len(), 4);
    assert_eq!(categories[0]["name"], "Laptops");
    assert_eq!(categories[0]["url"], "/category/laptops");
    assert_eq!(categories[0]["id"], 1);

    let products = result["products"].as_array().unwrap();
    assert_eq!(products.len(), 6);

    assert_eq!(products[0]["id"], 101);
    assert_eq!(products[0]["inStock"], "true");
    assert_eq!(products[0]["title"], "TechPro Laptop 15\"");
    assert!(
        products[0]["description"]
            .as_str()
            .unwrap()
            .contains("16GB RAM")
    );

    let badges = products[0]["badges"].as_array().unwrap();
    assert_eq!(badges.len(), 1);
    assert_eq!(badges[0]["text"], "SALE");

    let specs = products[0]["specs"].as_array().unwrap();
    assert_eq!(specs.len(), 3);
    assert_eq!(specs[0]["name"], "Intel Core i7");

    assert_eq!(products[0]["rating"]["stars"], "★★★★☆");
    assert_eq!(products[0]["rating"]["reviewCount"], "245");

    assert_eq!(products[0]["pricing"]["current"], "899.99");
    // Note: .price-original has value "$1,199.99" with comma, which doesn't match regex \$(\d+\.\d+)
    assert_eq!(products[0]["pricing"]["original"], serde_json::Value::Null);
    assert_eq!(products[0]["pricing"]["discount"], "25% OFF");

    assert_eq!(products[2]["id"], 103);
    assert_eq!(products[2]["inStock"], "false");
    let out_badges = products[2]["badges"].as_array().unwrap();
    assert_eq!(out_badges[0]["text"], "OUT OF STOCK");

    assert_eq!(result["newsletter"]["title"], "Subscribe to Our Newsletter");
    assert_eq!(
        result["newsletter"]["description"],
        "Get exclusive deals and updates delivered to your inbox"
    );

    let features = result["features"].as_array().unwrap();
    assert_eq!(features.len(), 4);
    assert_eq!(features[0]["title"], "Free Shipping");
    assert_eq!(features[0]["text"], "On orders over $50");

    assert_eq!(
        result["footer"]["about"],
        "Your trusted source for premium electronics since 2010."
    );

    assert_eq!(result.as_object().unwrap().len(), 8);
}

#[test]
fn nested_array_extraction_with_pipes() {
    let result = run(
        r#"{
        "products": [{
            "$": ".product-card",
            "id": "attr:data-product-id | parseAs:int",
            "title": "> .product-info .product-title",
            "price": "> .product-info .price-current | regex:\\$(\\d+\\.\\d+) | parseAs:number",
            "reviews": "> .product-info .review-count | regex:(\\d+)"
        }]
    }"#,
    );

    let products = result["products"].as_array().unwrap();
    assert_eq!(products.len(), 6);

    assert_eq!(products[0]["id"], 101);
    assert_eq!(products[0]["title"], "TechPro Laptop 15\"");
    assert_eq!(products[0]["price"], 899.99);
    assert_eq!(products[0]["reviews"], "245");

    assert_eq!(products[1]["id"], 102);
    assert_eq!(products[1]["reviews"], "512");
}

#[test]
fn attribute_extraction_with_selectors() {
    let result = run(
        r#"{
        "logo": ".logo",
        "logoExists": ".logo | attr:class",
        "firstProductImage": ".product-card:nth-of-type(1) .product-image img | attr:src",
        "firstProductAlt": ".product-card:nth-of-type(1) .product-image img | attr:alt"
    }"#,
    );

    assert_eq!(result["logo"], "TechStore");
    assert_eq!(result["logoExists"], "logo");
    assert_eq!(result["firstProductImage"], "/images/laptop-pro.jpg");
    assert_eq!(result["firstProductAlt"], "TechPro Laptop");
}
