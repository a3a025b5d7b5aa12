//! The status page.
//!
//! The page is held in two parts, so that the base of its links can stand
//! between them, right behind the start of its head.
use vstd::prelude::*;

verus! {

/// The page up to the start of its head.
pub const PAGE_START: &'static str = "<!doctype html>\n<html lang=\"zh-CN\">\n<head>";

/// The rest of the page.
pub const PAGE_REST: &'static str = r#"
  <meta charset="utf-8">
  <meta name="viewport" content="width=device-width, initial-scale=1">
  <title>cangling broker</title>
  <style>
    body { font: 14px/1.5 system-ui, sans-serif; margin: 0; color: #1c2430; background: #f5f7fa; }
    header { padding: 16px 24px; background: #fff; border-bottom: 1px solid #dfe4ea; }
    h1 { font-size: 18px; margin: 0; }
    main { padding: 16px 24px; }
    .cards { display: flex; flex-wrap: wrap; gap: 12px; margin-bottom: 16px; }
    .card { background: #fff; border: 1px solid #dfe4ea; border-radius: 6px; padding: 8px 14px; }
    .card b { display: block; font-size: 18px; }
    .tabs button { border: 0; background: none; padding: 8px 14px; cursor: pointer; }
    .tabs button[aria-selected="true"] { border-bottom: 2px solid #2f6fed; font-weight: 600; }
    .tools { display: flex; gap: 8px; margin: 10px 0; }
    table { width: 100%; border-collapse: collapse; background: #fff; }
    th, td { padding: 6px 10px; border-bottom: 1px solid #edf0f4; text-align: left; }
    td.num { text-align: right; font-variant-numeric: tabular-nums; }
    td.zero { color: #b0b8c4; }
    .pager { display: flex; gap: 8px; align-items: center; margin: 8px 0; }
    .modal { position: fixed; inset: 0; background: rgba(20, 28, 40, .45); display: none; }
    .modal.open { display: block; }
    .modal > div { background: #fff; margin: 6vh auto; padding: 16px 20px; width: min(860px, 92vw);
      max-height: 84vh; overflow: auto; border-radius: 8px; }
    pre { white-space: pre-wrap; word-break: break-all; background: #f5f7fa; padding: 10px; }
    a.name { color: #2f6fed; cursor: pointer; }
  </style>
</head>
<body>
  <header><h1>cangling broker <small id="build"></small></h1></header>
  <main>
    <div class="cards" id="cards"></div>
    <div class="tabs" role="tablist">
      <button role="tab" data-tab="clients" aria-selected="true">客户端</button>
      <button role="tab" data-tab="topics" aria-selected="false">主题</button>
    </div>
    <section id="clients">
      <div class="tools">
        <select id="client-type-filter">
          <option value="">全部</option>
          <option value="grpc">gRPC</option>
          <option value="mqtt">MQTT</option>
          <option value="mqtt-ws">MQTT WebSocket</option>
        </select>
        <select id="client-page-size"><option>20</option><option>50</option><option>100</option></select>
      </div>
      <div id="client-list"></div>
    </section>
    <section id="topics" hidden>
      <div class="tools">
        <input id="topic-name-filter" placeholder="主题">
        <select id="topic-page-size"><option>20</option><option>50</option><option>100</option></select>
      </div>
      <div id="topic-list"></div>
    </section>
  </main>
  <div class="modal" id="topic-modal"><div id="topic-modal-body"></div></div>
  <script>
    const state = { tab: "clients", clientPage: 0, topicPage: 0, status: null, topic: null, offset: 0 };
    const byId = (id) => document.getElementById(id);

    function apiUrl(path) {
      return new URL(path, document.baseURI).toString();
    }

    function authHeaders() {
      const token = new URLSearchParams(location.search).get("token");
      return token ? { authorization: "Bearer " + token } : {};
    }

    function esc(value) {
      return String(value === null || value === undefined ? "" : value)
        .replace(/&/g, "&amp;").replace(/</g, "&lt;").replace(/>/g, "&gt;").replace(/"/g, "&quot;");
    }

    function pad2(n) {
      return String(n).padStart(2, "0");
    }

    function fmtTime(value) {
      const date = new Date(value);
      if (isNaN(date)) { return ""; }
      return date.getFullYear() + "-" + pad2(date.getMonth() + 1) + "-" + pad2(date.getDate())
        + " " + pad2(date.getHours()) + ":" + pad2(date.getMinutes()) + ":" + pad2(date.getSeconds());
    }

    function fmtSince(value) {
      const date = new Date(value);
      if (isNaN(date)) { return ""; }
      let secs = Math.max(0, Math.floor((Date.now() - date.getTime()) / 1000));
      const days = Math.floor(secs / 86400);
      secs = secs % 86400;
      const clock = pad2(Math.floor(secs / 3600)) + ":" + pad2(Math.floor(secs / 60) % 60) + ":" + pad2(secs % 60);
      return days > 0 ? days + "d " + clock : clock;
    }

    function fuzzyMatch(text, query) {
      const wanted = query.trim().toLowerCase();
      let at = 0;
      for (const c of text.toLowerCase()) {
        if (at < wanted.length && c === wanted[at]) { at += 1; }
      }
      return at === wanted.length;
    }

    function numCell(value) {
      return '<td class="num' + (value ? "" : " zero") + '">' + esc(value) + "</td>";
    }

    function pageOf(rows, page, size) {
      const pages = Math.max(1, Math.ceil(rows.length / size));
      const current = Math.min(page, pages - 1);
      return { rows: rows.slice(current * size, current * size + size), current, pages, first: current * size };
    }

    function pagerHtml(kind, page) {
      return '<div class="pager"><button data-page="' + kind + '" data-step="-1">&lt;</button>'
        + (page.current + 1) + " / " + page.pages
        + '<button data-page="' + kind + '" data-step="1">&gt;</button></div>';
    }

    function withPagers(kind, page, table) {
      const pager = { top: pagerHtml(kind, page), bottom: pagerHtml(kind, page) };
      return pager.top + table + pager.bottom;
    }

    function consumerSummary(topic) {
      const live = topic.consumers.filter((consumer) => consumer.live).length;
      return live + " / " + topic.consumers.length;
    }

    function renderCards() {
      const s = state.status;
      const cards = [["主题", s.topics], ["订阅", s.consumers], ["接收", s.accepted], ["重复", s.duplicates],
        ["等待", s.pending], ["处理中", s.processing], ["已投递", s.delivered], ["失败", s.failed],
        ["丢弃", s.dropped]];
      byId("cards").innerHTML = cards.map((c) => '<div class="card">' + c[0] + "<b>" + esc(c[1]) + "</b></div>").join("");
      byId("build").textContent = s.version + " " + s.git;
    }

    function renderClients() {
      const type = byId("client-type-filter").value;
      const rows = state.status.clients.filter((client) => !type || client.protocol === type);
      const page = pageOf(rows, state.clientPage, Number(byId("client-page-size").value));
      state.clientPage = page.current;
      const body = page.rows.map((client, i) => "<tr><td>" + (page.first + i + 1) + "</td><td>" + esc(client.host || "")
        + "</td><td>" + esc(client.peer) + "</td><td>" + esc(client.protocol) + "</td><td>" + esc(client.client_id || "")
        + "</td><td>" + esc(client.version || "") + "</td>" + numCell(client.streams)
        + "<td>" + fmtSince(client.connected_at) + "</td><td>" + fmtTime(client.last_seen_at) + "</td></tr>").join("");
      byId("client-list").innerHTML = withPagers("client", page,
        "<table><tr><th>序号</th><th>主机</th><th>地址</th><th>协议</th><th>标识</th><th>版本</th><th>流</th>"
        + "<th>连接时长</th><th>最近活动</th></tr>" + body + "</table>");
    }

    function renderTopics() {
      const query = byId("topic-name-filter").value;
      const rows = state.status.topics_detail.filter((topic) => fuzzyMatch(topic.name, query));
      const page = pageOf(rows, state.topicPage, Number(byId("topic-page-size").value));
      state.topicPage = page.current;
      const body = page.rows.map((topic, i) => "<tr><td>" + (page.first + i + 1)
        + '</td><td><a class="name" data-topic-name="' + esc(topic.name) + '">' + esc(topic.name) + "</a></td><td>"
        + esc(topic.delivery) + "</td><td>" + esc(topic.persistence) + "</td>" + numCell(topic.streams)
        + "<td>" + consumerSummary(topic) + "</td>" + numCell(topic.accepted) + numCell(topic.pending)
        + numCell(topic.processing) + numCell(topic.delivered) + numCell(topic.failed) + numCell(topic.dropped)
        + "</tr>").join("");
      byId("topic-list").innerHTML = withPagers("topic", page,
        "<table><tr><th>序号</th><th>主题</th><th>投递</th><th>持久化</th><th>流</th><th>消费者</th><th>接收</th>"
        + "<th>等待</th><th>处理中</th><th>已投递</th><th>失败</th><th>丢弃</th></tr>" + body + "</table>");
    }

    function render() {
      if (!state.status) { return; }
      renderCards();
      renderClients();
      renderTopics();
    }

    async function refresh() {
      const response = await fetch(apiUrl("status"), { headers: authHeaders() });
      if (response.ok) {
        state.status = await response.json();
        render();
      }
    }

    async function showMessage() {
      const url = new URL(apiUrl("messages"));
      url.searchParams.set("topic", state.topic);
      url.searchParams.set("offset", state.offset);
      const response = await fetch(url, { headers: authHeaders() });
      if (!response.ok) { return; }
      const page = await response.json();
      state.offset = page.offset;
      const message = page.message;
      const shown = message
        ? "<p>" + esc(message.id) + " · " + esc(message.status) + " · " + fmtTime(message.created_at) + "</p><pre>"
          + esc(message.payload) + (message.truncated ? "…" : "") + "</pre><pre>"
          + esc(JSON.stringify(message.attributes, null, 2)) + "</pre>"
        : "<p>没有消息</p>";
      byId("topic-modal-body").innerHTML = "<h2>" + esc(state.topic) + "</h2>" + shown
        + '<div class="pager"><button data-msg-nav="-1">&lt;</button>' + (page.total ? page.offset + 1 : 0) + " / "
        + page.total + '<button data-msg-nav="1">&gt;</button><button data-clear-topic="' + esc(state.topic)
        + '">清空</button><button data-close="1">关闭</button></div>';
      byId("topic-modal").classList.add("open");
    }

    async function clearTopic(topic) {
      const url = new URL(apiUrl("messages"));
      url.searchParams.set("topic", topic);
      await fetch(url, { method: "DELETE", headers: authHeaders() });
      state.offset = 0;
      await showMessage();
      await refresh();
    }

    document.addEventListener("click", (event) => {
      const data = event.target.dataset || {};
      if (data.tab) {
        state.tab = data.tab;
        for (const button of document.querySelectorAll("[data-tab]")) {
          button.setAttribute("aria-selected", String(button.dataset.tab === data.tab));
          byId(button.dataset.tab).hidden = button.dataset.tab !== data.tab;
        }
      } else if (data.page) {
        const key = data.page === "client" ? "clientPage" : "topicPage";
        state[key] = Math.max(0, state[key] + Number(data.step));
        render();
      } else if (data.topicName !== undefined) {
        state.topic = data.topicName;
        state.offset = 0;
        showMessage();
      } else if (data.msgNav) {
        state.offset = Math.max(0, state.offset + Number(data.msgNav));
        showMessage();
      } else if (data.clearTopic) {
        clearTopic(data.clearTopic);
      } else if (data.close || event.target.id === "topic-modal") {
        byId("topic-modal").classList.remove("open");
      }
    });
    for (const id of ["client-type-filter", "topic-name-filter", "client-page-size", "topic-page-size"]) {
      byId(id).addEventListener("input", render);
    }
    refresh();
    setInterval(refresh, 5000);
  </script>
</body>
</html>
"#;

} // verus!
