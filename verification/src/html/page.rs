//! The fixed parts of a page.
use vstd::prelude::*;

verus! {

/// Up to the title of the page.
pub const PAGE_START: &'static str = r#"<!DOCTYPE html>
<html lang="en">
<head>
<meta charset="utf-8">
<meta name="viewport" content="width=device-width, initial-scale=1">
<title>"#;

/// Between the title of the page and the heading: the styles.
pub const PAGE_STYLES: &'static str = r#" — branchdiff</title>
<style>
:root {
  --bg:      #002b36;
  --bg-hl:   #073642;
  --fg:      #839496;
  --fg-em:   #93a1a1;
  --fg-sec:  #586e75;
  --border:  #073642;
}
[data-theme="light"] {
  --bg:      #fdf6e3;
  --bg-hl:   #eee8d5;
  --fg:      #657b83;
  --fg-em:   #586e75;
  --fg-sec:  #93a1a1;
  --border:  #eee8d5;
}
* { margin: 0; padding: 0; box-sizing: border-box; }
body {
  background: var(--bg);
  color: var(--fg);
  font-family: 'SF Mono','Menlo','Consolas','Liberation Mono',monospace;
  font-size: 14px;
  line-height: 1.5;
  -webkit-text-size-adjust: 100%;
  padding: 16px;
}
.header {
  position: relative;
  color: #2aa198;
  padding: 12px 0;
  border-bottom: 1px solid var(--border);
  margin-bottom: 16px;
}
.header h1 { font-size: 16px; font-weight: 600; }
.header .stats { font-size: 13px; color: var(--fg-sec); margin-top: 4px; }
.theme-toggle {
  position: absolute; right: 0; top: 4px;
  background: none; border: 1px solid var(--border);
  border-radius: 6px; padding: 8px 14px;
  color: var(--fg-sec); cursor: pointer; font-size: 24px;
  line-height: 1; min-width: 44px; min-height: 44px;
}
.theme-toggle:hover { color: var(--fg-em); }
.toc {
  margin-bottom: 20px;
  padding: 12px;
  background: var(--bg-hl);
  border-radius: 6px;
}
.toc-title { font-size: 13px; color: var(--fg-sec); margin-bottom: 8px; }
.toc a {
  display: block;
  color: #2aa198;
  text-decoration: none;
  padding: 2px 0;
  font-size: 13px;
}
.toc a:hover { text-decoration: underline; }
.adds { color: #859900; }
.dels { color: #dc322f; }
details {
  margin-bottom: 12px;
  border: 1px solid var(--border);
  border-radius: 6px;
  overflow: hidden;
}
summary {
  padding: 8px 12px;
  background: var(--bg-hl);
  cursor: pointer;
  font-weight: 600;
  color: var(--fg-em);
  font-size: 13px;
  user-select: none;
}
summary:hover { background: var(--border); }
summary .adds { font-weight: 400; }
summary .dels { font-weight: 400; }
table {
  width: 100%;
  border-collapse: collapse;
  table-layout: fixed;
}
td { vertical-align: top; white-space: pre-wrap; word-break: break-all; }
.ln {
  color: var(--fg-sec);
  user-select: none;
  text-align: right;
  padding: 0 8px 0 4px;
  width: 4em;
  min-width: 4em;
  white-space: nowrap;
}
.gutter {
  width: 1.5em;
  text-align: center;
  color: var(--fg-sec);
  user-select: none;
  padding: 0;
}
.content {
  padding: 0 8px;
  overflow-x: auto;
}
.line-base { }
.line-committed { background: rgba(42,161,152,0.08); }
.line-staged { background: rgba(133,153,0,0.08); }
.line-unstaged { background: rgba(181,137,0,0.08); }
.line-del-base { background: rgba(220,50,47,0.08); }
.line-del-committed { background: rgba(220,50,47,0.08); }
.line-del-staged { background: rgba(220,50,47,0.08); }
.line-canceled { background: rgba(211,54,130,0.08); }
.line-moved { background: rgba(211,54,130,0.08); }
.line-header td { padding: 8px 12px; color: var(--fg-em); font-weight: bold; }
.line-elided td { color: var(--fg-sec); opacity: 0.7; padding: 2px 12px; font-style: italic; }
.hl-committed { background: rgba(42,161,152,0.2); border-radius: 2px; }
.hl-staged { background: rgba(133,153,0,0.2); border-radius: 2px; }
.hl-unstaged { background: rgba(181,137,0,0.2); border-radius: 2px; }
.hl-del-base { background: rgba(220,50,47,0.2); border-radius: 2px; }
.hl-del-committed { background: rgba(220,50,47,0.2); border-radius: 2px; }
.hl-del-staged { background: rgba(220,50,47,0.2); border-radius: 2px; }
.hl-canceled { background: rgba(211,54,130,0.2); border-radius: 2px; }
.del { text-decoration: line-through; opacity: 0.7; }
.image-container {
  display: flex;
  gap: 16px;
  padding: 12px;
  flex-wrap: wrap;
  justify-content: center;
}
.image-panel { text-align: center; }
.image-panel img {
  max-width: 100%;
  border: 1px solid var(--border);
  border-radius: 4px;
}
.image-panel .meta {
  font-size: 12px;
  color: var(--fg-sec);
  margin-top: 4px;
}
.image-label {
  font-size: 12px;
  color: var(--fg-sec);
  margin-bottom: 4px;
  text-transform: uppercase;
  letter-spacing: 0.5px;
}
.footer {
  margin-top: 24px;
  padding-top: 12px;
  border-top: 1px solid var(--border);
  font-size: 12px;
  color: var(--fg-sec);
}
.footer a { color: #2aa198; }
@media (max-width: 768px) {
  body { padding: 8px; font-size: 13px; }
  .ln { width: 3em; min-width: 3em; font-size: 12px; }
}
</style>
</head>
<body>
<div class="header">
  <h1>"#;

/// Behind the heading, up to the numbers.
pub const STATS_START: &'static str = r#"</h1>
  <div class="stats">"#;

/// Behind the numbers: the button that switches between light and dark.
pub const STATS_END: &'static str = r#"</span></div>
  <button class="theme-toggle" aria-label="Toggle light/dark theme">☀</button>
</div>
"#;

/// At the end of the page: where the program is found.
pub const FOOTER: &'static str = r#"<div class="footer">Generated by <a href="https://github.com/michaeldhopkins/branchdiff">branchdiff</a></div>
"#;

/// What runs in the page: it switches between light and dark, and shows the page anew when it
/// changes.
pub const PAGE_SCRIPT: &'static str = r#"<script>
function applyTheme(){
  const theme=localStorage.getItem('bd-theme')||'dark';
  document.documentElement.dataset.theme=theme;
  const btn=document.querySelector('.theme-toggle');
  if(btn)btn.textContent=theme==='light'?'☾':'☀';
}
function bindToggle(){
  document.querySelector('.theme-toggle')?.addEventListener('click',()=>{
    const next=document.documentElement.dataset.theme==='light'?'dark':'light';
    localStorage.setItem('bd-theme',next);
    applyTheme();
  });
}
applyTheme();
bindToggle();
if(location.protocol!=='file:'){let prev='';setInterval(()=>{
  fetch(location.href,{cache:'no-store'}).then(r=>r.text()).then(h=>{
    const d=new DOMParser().parseFromString(h,'text/html');
    const newBody=d.body.innerHTML;
    if(newBody===prev||!newBody)return;
    prev=newBody;
    const s=[window.scrollX,window.scrollY];
    document.body.innerHTML=newBody;
    window.scrollTo(...s);
    applyTheme();
    bindToggle();
  }).catch(()=>{});
},2000)}
</script>
</body></html>
"#;

} // verus!
